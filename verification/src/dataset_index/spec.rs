use vstd::prelude::*;

use crate::closure_index::successors;
use crate::dataset_index::ids::IndexedVocabulary;

verus! {

/// How the index files a triple, decided by its predicate.
#[derive(Debug, Clone, Copy, PartialEq, Eq, Structural)]
pub enum TripleKind {
    SubClassOf,
    EquivalentClass,
    SubPropertyOf,
    EquivalentProperty,
    Type,
    Domain,
    Range,
    DisjointWith,
    PropertyDisjointWith,
    InverseOf,
    SameAs,
    DifferentFrom,
    PropertyChainAxiom,
    First,
    Rest,
    Members,
    DistinctMembers,
    Property,
}

/// How the index files an `rdf:type` triple, decided by its object.
#[derive(Debug, Clone, Copy, PartialEq, Eq, Structural)]
pub enum TypeKind {
    Functional,
    InverseFunctional,
    Irreflexive,
    Asymmetric,
    Reflexive,
    Symmetric,
    Transitive,
    Class,
}

/// The edge maps of the index.
#[derive(Debug, Clone, Copy, PartialEq, Eq, Structural)]
pub enum EdgeField {
    SubclassEdges,
    SubpropertyEdges,
    PropertyChainAxiomHeads,
    ListFirst,
    ListRest,
    MembersHeads,
    DistinctMembersHeads,
    TypeAssertions,
    DomainByProperty,
    RangeByProperty,
    DisjointClassPairs,
    PropertyDisjointPairs,
    InverseOfPairs,
}

/// The kind of a triple with predicate `p`; the first matching vocabulary
/// term wins.
pub open spec fn triple_kind(v: IndexedVocabulary, p: u32) -> TripleKind {
    if p == v.rdfs_subclass_of_id {
        TripleKind::SubClassOf
    } else if p == v.owl_equivalent_class_id {
        TripleKind::EquivalentClass
    } else if p == v.rdfs_subproperty_of_id {
        TripleKind::SubPropertyOf
    } else if p == v.owl_equivalent_property_id {
        TripleKind::EquivalentProperty
    } else if p == v.rdf_type_id {
        TripleKind::Type
    } else if p == v.rdfs_domain_id {
        TripleKind::Domain
    } else if p == v.rdfs_range_id {
        TripleKind::Range
    } else if p == v.owl_disjoint_with_id {
        TripleKind::DisjointWith
    } else if p == v.owl_property_disjoint_with_id {
        TripleKind::PropertyDisjointWith
    } else if p == v.owl_inverse_of_id {
        TripleKind::InverseOf
    } else if p == v.owl_same_as_id {
        TripleKind::SameAs
    } else if p == v.owl_different_from_id {
        TripleKind::DifferentFrom
    } else if p == v.owl_property_chain_axiom_id {
        TripleKind::PropertyChainAxiom
    } else if p == v.rdf_first_id {
        TripleKind::First
    } else if p == v.rdf_rest_id {
        TripleKind::Rest
    } else if p == v.owl_members_id {
        TripleKind::Members
    } else if p == v.owl_distinct_members_id {
        TripleKind::DistinctMembers
    } else {
        TripleKind::Property
    }
}

/// The kind of `x rdf:type o`; the first matching vocabulary term wins.
pub open spec fn type_kind(v: IndexedVocabulary, o: u32) -> TypeKind {
    if o == v.owl_functional_property_id {
        TypeKind::Functional
    } else if o == v.owl_inverse_functional_property_id {
        TypeKind::InverseFunctional
    } else if o == v.owl_irreflexive_property_id {
        TypeKind::Irreflexive
    } else if o == v.owl_asymmetric_property_id {
        TypeKind::Asymmetric
    } else if o == v.owl_reflexive_property_id {
        TypeKind::Reflexive
    } else if o == v.owl_symmetric_property_id {
        TypeKind::Symmetric
    } else if o == v.owl_transitive_property_id {
        TypeKind::Transitive
    } else {
        TypeKind::Class
    }
}

/// The edge that triple `t` adds to field `f`: `(from, to, symmetric)`.
pub open spec fn field_edge(v: IndexedVocabulary, t: (u32, u32, u32), f: EdgeField) -> Option<
    (u32, u32, bool),
> {
    let k = triple_kind(v, t.1);
    match f {
        EdgeField::SubclassEdges => if k == TripleKind::SubClassOf {
            Some((t.0, t.2, false))
        } else if k == TripleKind::EquivalentClass {
            Some((t.0, t.2, true))
        } else {
            None
        },
        EdgeField::SubpropertyEdges => if k == TripleKind::SubPropertyOf {
            Some((t.0, t.2, false))
        } else if k == TripleKind::EquivalentProperty {
            Some((t.0, t.2, true))
        } else {
            None
        },
        EdgeField::PropertyChainAxiomHeads => if k == TripleKind::PropertyChainAxiom {
            Some((t.0, t.2, false))
        } else {
            None
        },
        EdgeField::ListFirst => if k == TripleKind::First {
            Some((t.0, t.2, false))
        } else {
            None
        },
        EdgeField::ListRest => if k == TripleKind::Rest {
            Some((t.0, t.2, false))
        } else {
            None
        },
        EdgeField::MembersHeads => if k == TripleKind::Members {
            Some((t.0, t.2, false))
        } else {
            None
        },
        EdgeField::DistinctMembersHeads => if k == TripleKind::DistinctMembers {
            Some((t.0, t.2, false))
        } else {
            None
        },
        EdgeField::TypeAssertions => if k == TripleKind::Type && type_kind(v, t.2)
            == TypeKind::Class {
            Some((t.0, t.2, false))
        } else {
            None
        },
        EdgeField::DomainByProperty => if k == TripleKind::Domain {
            Some((t.0, t.2, false))
        } else {
            None
        },
        EdgeField::RangeByProperty => if k == TripleKind::Range {
            Some((t.0, t.2, false))
        } else {
            None
        },
        EdgeField::DisjointClassPairs => if k == TripleKind::DisjointWith {
            Some((t.0, t.2, true))
        } else {
            None
        },
        EdgeField::PropertyDisjointPairs => if k == TripleKind::PropertyDisjointWith {
            Some((t.0, t.2, true))
        } else {
            None
        },
        EdgeField::InverseOfPairs => if k == TripleKind::InverseOf {
            Some((t.0, t.2, true))
        } else {
            None
        },
    }
}

/// Triple `t` files the edge `a -> b` under field `f`.
pub open spec fn triple_edge(
    v: IndexedVocabulary,
    t: (u32, u32, u32),
    f: EdgeField,
    a: u32,
    b: u32,
) -> bool {
    match field_edge(v, t, f) {
        Some(e) => (a == e.0 && b == e.1) || (e.2 && a == e.1 && b == e.0),
        None => false,
    }
}

/// Some triple of `ts` files the edge `a -> b` under field `f`.
pub open spec fn has_edge(
    v: IndexedVocabulary,
    ts: Seq<(u32, u32, u32)>,
    f: EdgeField,
    a: u32,
    b: u32,
) -> bool {
    exists|i: int| 0 <= i < ts.len() && #[trigger] triple_edge(v, ts[i], f, a, b)
}

/// The edge map of field `f` over the triples `ts`.
pub open spec fn edge_map(v: IndexedVocabulary, ts: Seq<(u32, u32, u32)>, f: EdgeField) -> Map<
    u32,
    Set<u32>,
> {
    Map::new(
        |a: u32| exists|b: u32| #[trigger] has_edge(v, ts, f, a, b),
        |a: u32| Set::new(|b: u32| has_edge(v, ts, f, a, b)),
    )
}

/// `m` with the edge `a -> b` added.
pub open spec fn add_edge(m: Map<u32, Set<u32>>, a: u32, b: u32) -> Map<u32, Set<u32>> {
    m.insert(a, successors(m, a).insert(b))
}

/// The member a `rdf:type` triple adds to the property-characteristic set
/// of kind `tk`.
pub open spec fn characteristic_member(v: IndexedVocabulary, t: (u32, u32, u32), tk: TypeKind) -> bool {
    triple_kind(v, t.1) == TripleKind::Type && type_kind(v, t.2) == tk
}

/// The properties declared with characteristic `tk` in `ts`.
pub open spec fn characteristic_set(v: IndexedVocabulary, ts: Seq<(u32, u32, u32)>, tk: TypeKind) -> Set<
    u32,
> {
    Set::new(
        |x: u32|
            exists|i: int|
                0 <= i < ts.len() && #[trigger] characteristic_member(v, ts[i], tk) && ts[i].0
                    == x,
    )
}

/// Triple `t` marks `x` as an observed named resource: the subject and the
/// object of a plain property, `owl:sameAs` or `owl:differentFrom`
/// assertion, and the subject of a class-typing assertion.
pub open spec fn observes(v: IndexedVocabulary, t: (u32, u32, u32), x: u32) -> bool {
    let k = triple_kind(v, t.1);
    ||| (k == TripleKind::SameAs || k == TripleKind::DifferentFrom || k == TripleKind::Property) && (
    t.0 == x || t.2 == x)
    ||| k == TripleKind::Type && type_kind(v, t.2) == TypeKind::Class && t.0 == x
}

/// The observed named resources of `ts`.
pub open spec fn observed_set(v: IndexedVocabulary, ts: Seq<(u32, u32, u32)>) -> Set<u32> {
    Set::new(|x: u32| exists|i: int| 0 <= i < ts.len() && #[trigger] observes(v, ts[i], x))
}

/// A pair with the smaller id first.
pub open spec fn ordered_pair_spec(a: u32, b: u32) -> (u32, u32) {
    if a <= b {
        (a, b)
    } else {
        (b, a)
    }
}

/// The asserted `owl:differentFrom` pairs of `ts`, smaller id first.
pub open spec fn different_from_set(v: IndexedVocabulary, ts: Seq<(u32, u32, u32)>) -> Set<
    (u32, u32),
> {
    Set::new(
        |pr: (u32, u32)|
            exists|i: int|
                0 <= i < ts.len() && triple_kind(v, ts[i].1) == TripleKind::DifferentFrom
                    && pr == #[trigger] ordered_pair_spec(ts[i].0, ts[i].2),
    )
}

/// The plain property assertions of `ts`, in order.
pub open spec fn property_seq(v: IndexedVocabulary, ts: Seq<(u32, u32, u32)>) -> Seq<
    (u32, u32, u32),
>
    decreases ts.len(),
{
    if ts.len() == 0 {
        Seq::empty()
    } else if triple_kind(v, ts.last().1) == TripleKind::Property {
        property_seq(v, ts.drop_last()).push(ts.last())
    } else {
        property_seq(v, ts.drop_last())
    }
}

/// The asserted `owl:sameAs` pairs of `ts`, in order.
pub open spec fn same_as_seq(v: IndexedVocabulary, ts: Seq<(u32, u32, u32)>) -> Seq<(u32, u32)>
    decreases ts.len(),
{
    if ts.len() == 0 {
        Seq::empty()
    } else if triple_kind(v, ts.last().1) == TripleKind::SameAs {
        same_as_seq(v, ts.drop_last()).push((ts.last().0, ts.last().2))
    } else {
        same_as_seq(v, ts.drop_last())
    }
}

/// Adding a triple adds exactly its own edges to every field.
pub proof fn lemma_edge_map_push(
    v: IndexedVocabulary,
    ts: Seq<(u32, u32, u32)>,
    t: (u32, u32, u32),
    f: EdgeField,
)
    ensures
        edge_map(v, ts.push(t), f) == match field_edge(v, t, f) {
            Some(e) => if e.2 {
                add_edge(add_edge(edge_map(v, ts, f), e.0, e.1), e.1, e.0)
            } else {
                add_edge(edge_map(v, ts, f), e.0, e.1)
            },
            None => edge_map(v, ts, f),
        },
{
    let ts2 = ts.push(t);
    assert forall|a: u32, b: u32|
        has_edge(v, ts2, f, a, b) <==> (has_edge(v, ts, f, a, b) || triple_edge(v, t, f, a, b)) by {
        if has_edge(v, ts2, f, a, b) {
            let i = choose|i: int| 0 <= i < ts2.len() && #[trigger] triple_edge(v, ts2[i], f, a, b);
            if i < ts.len() {
                assert(ts2[i] == ts[i]);
                assert(triple_edge(v, ts[i], f, a, b));
            }
        }
        if has_edge(v, ts, f, a, b) {
            let i = choose|i: int| 0 <= i < ts.len() && #[trigger] triple_edge(v, ts[i], f, a, b);
            assert(ts2[i] == ts[i]);
            assert(triple_edge(v, ts2[i], f, a, b));
        }
        if triple_edge(v, t, f, a, b) {
            assert(ts2[ts.len() as int] == t);
            assert(triple_edge(v, ts2[ts.len() as int], f, a, b));
        }
    }
    let m = edge_map(v, ts, f);
    let m2 = edge_map(v, ts2, f);
    match field_edge(v, t, f) {
        Some(e) => {
            if e.2 {
                let r = add_edge(add_edge(m, e.0, e.1), e.1, e.0);
                assert forall|a: u32| #[trigger] m2.contains_key(a) <==> r.contains_key(a) by {
                    if m2.contains_key(a) {
                        let b = choose|b: u32| #[trigger] has_edge(v, ts2, f, a, b);
                        if has_edge(v, ts, f, a, b) {
                            assert(m.contains_key(a));
                        }
                    }
                    if m.contains_key(a) {
                        let b = choose|b: u32| #[trigger] has_edge(v, ts, f, a, b);
                        assert(has_edge(v, ts2, f, a, b));
                    }
                    if a == e.0 {
                        assert(triple_edge(v, t, f, e.0, e.1));
                        assert(has_edge(v, ts2, f, a, e.1));
                    }
                    if a == e.1 {
                        assert(triple_edge(v, t, f, e.1, e.0));
                        assert(has_edge(v, ts2, f, a, e.0));
                    }
                }
                assert forall|a: u32| #[trigger] m2.contains_key(a) implies m2[a] =~= r[a] by {
                    assert forall|b: u32| m2[a].contains(b) <==> r[a].contains(b) by {
                        if m.contains_key(a) {
                        }
                    }
                }
                assert(m2 =~= r);
            } else {
                let r = add_edge(m, e.0, e.1);
                assert forall|a: u32| #[trigger] m2.contains_key(a) <==> r.contains_key(a) by {
                    if m2.contains_key(a) {
                        let b = choose|b: u32| #[trigger] has_edge(v, ts2, f, a, b);
                        if has_edge(v, ts, f, a, b) {
                            assert(m.contains_key(a));
                        }
                    }
                    if m.contains_key(a) {
                        let b = choose|b: u32| #[trigger] has_edge(v, ts, f, a, b);
                        assert(has_edge(v, ts2, f, a, b));
                    }
                    if a == e.0 {
                        assert(triple_edge(v, t, f, e.0, e.1));
                        assert(has_edge(v, ts2, f, a, e.1));
                    }
                }
                assert forall|a: u32| #[trigger] m2.contains_key(a) implies m2[a] =~= r[a] by {
                    assert forall|b: u32| m2[a].contains(b) <==> r[a].contains(b) by {
                        if m.contains_key(a) {
                        }
                    }
                }
                assert(m2 =~= r);
            }
        },
        None => {
            assert forall|a: u32| #[trigger] m2.contains_key(a) <==> m.contains_key(a) by {
                if m2.contains_key(a) {
                    let b = choose|b: u32| #[trigger] has_edge(v, ts2, f, a, b);
                    assert(has_edge(v, ts, f, a, b));
                }
                if m.contains_key(a) {
                    let b = choose|b: u32| #[trigger] has_edge(v, ts, f, a, b);
                    assert(has_edge(v, ts2, f, a, b));
                }
            }
            assert forall|a: u32| #[trigger] m2.contains_key(a) implies m2[a] =~= m[a] by {}
            assert(m2 =~= m);
        },
    }
}

/// The edge maps of no triples are empty.
pub proof fn lemma_edge_map_empty(v: IndexedVocabulary, f: EdgeField)
    ensures
        edge_map(v, Seq::empty(), f) == Map::<u32, Set<u32>>::empty(),
{
    assert(edge_map(v, Seq::empty(), f) =~= Map::<u32, Set<u32>>::empty());
}

} // verus!
