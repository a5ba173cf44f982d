use vstd::prelude::*;

use crate::dataset_index::spec::TypeKind;
use crate::dataset_index::{expanded_disjoint_properties, IndexedDataset};
use crate::dataset_index::spec::characteristic_set;
use crate::idset::{IdSet, IdSetMap};

verus! {

/// The property characteristics that consistency checking and identity
/// inference look at, copied from the index.
pub struct PropertyCharacteristicPlan {
    constrained_predicates: IdSet,
    irreflexive_properties: IdSet,
    asymmetric_properties: IdSet,
    functional_properties: IdSet,
    inverse_functional_properties: IdSet,
    property_disjoint_pairs: IdSetMap,
}

impl PropertyCharacteristicPlan {
    /// The properties whose assertions any of these checks look at.
    pub open spec fn constrained(&self) -> Set<u32> {
        self.irreflexive()
            .union(self.asymmetric())
            .union(self.functional())
            .union(self.inverse_functional())
            .union(self.disjoint_pairs().dom())
    }

    /// The `owl:IrreflexiveProperty` properties.
    pub closed spec fn irreflexive(&self) -> Set<u32> {
        self.irreflexive_properties@
    }

    /// The `owl:AsymmetricProperty` properties.
    pub closed spec fn asymmetric(&self) -> Set<u32> {
        self.asymmetric_properties@
    }

    /// The `owl:FunctionalProperty` properties.
    pub closed spec fn functional(&self) -> Set<u32> {
        self.functional_properties@
    }

    /// The `owl:InverseFunctionalProperty` properties.
    pub closed spec fn inverse_functional(&self) -> Set<u32> {
        self.inverse_functional_properties@
    }

    /// The property-disjointness edges.
    pub closed spec fn disjoint_pairs(&self) -> Map<u32, Set<u32>> {
        self.property_disjoint_pairs@
    }

    #[verifier::type_invariant]
    spec fn inv(&self) -> bool {
        self.constrained_predicates@ == self.constrained()
    }

    /// The plan of the characteristics declared in `index`.
    pub fn build(index: &IndexedDataset) -> (r: PropertyCharacteristicPlan)
        ensures
            r.irreflexive() == characteristic_set(index.vocab(), index.source(), TypeKind::Irreflexive),
            r.asymmetric() == characteristic_set(index.vocab(), index.source(), TypeKind::Asymmetric),
            r.functional() == characteristic_set(index.vocab(), index.source(), TypeKind::Functional),
            r.inverse_functional() == characteristic_set(index.vocab(), index.source(), TypeKind::InverseFunctional),
            r.disjoint_pairs() == expanded_disjoint_properties(index.vocab(), index.source()),
    {
        let mut constrained = IdSet::new();
        constrained.union_with(index.irreflexive_properties());
        constrained.union_with(index.asymmetric_properties());
        constrained.union_with(index.functional_properties());
        constrained.union_with(index.inverse_functional_properties());
        let pairs = index.property_disjoint_pairs();
        let keys = pairs.keys();
        let n = keys.len();
        let mut i: usize = 0;
        let ghost base = constrained@;
        while i < n
            invariant
                n == keys@.len(),
                i <= n,
                constrained@ == base.union(keys@.take(i as int).to_set()),
            decreases n - i,
        {
            constrained.insert(keys[i]);
            proof {
                crate::idset::lemma_take_succ_to_set(keys@, i as int);
            }
            i += 1;
        }
        proof {
            assert(keys@.take(n as int) =~= keys@);
        }
        let irreflexive_properties = index.irreflexive_properties().duplicate();
        let asymmetric_properties = index.asymmetric_properties().duplicate();
        let functional_properties = index.functional_properties().duplicate();
        let inverse_functional_properties = index.inverse_functional_properties().duplicate();
        let property_disjoint_pairs = pairs.duplicate();
        proof {
            assert(constrained@ =~= irreflexive_properties@.union(asymmetric_properties@).union(
                functional_properties@,
            ).union(inverse_functional_properties@).union(property_disjoint_pairs@.dom()));
        }
        PropertyCharacteristicPlan {
            constrained_predicates: constrained,
            irreflexive_properties,
            asymmetric_properties,
            functional_properties,
            inverse_functional_properties,
            property_disjoint_pairs,
        }
    }

    /// Whether assertions of `predicate_id` are looked at.
    pub fn is_constrained_predicate(&self, predicate_id: u32) -> (r: bool)
        ensures
            r == self.constrained().contains(predicate_id),
    {
        proof {
            use_type_invariant(self);
        }
        self.constrained_predicates.contains(predicate_id)
    }

    /// The `owl:IrreflexiveProperty` properties.
    pub fn irreflexive_properties(&self) -> (r: &IdSet)
        ensures
            r@ == self.irreflexive(),
    {
        &self.irreflexive_properties
    }

    /// The `owl:AsymmetricProperty` properties.
    pub fn asymmetric_properties(&self) -> (r: &IdSet)
        ensures
            r@ == self.asymmetric(),
    {
        &self.asymmetric_properties
    }

    /// The `owl:FunctionalProperty` properties.
    pub fn functional_properties(&self) -> (r: &IdSet)
        ensures
            r@ == self.functional(),
    {
        &self.functional_properties
    }

    /// The `owl:InverseFunctionalProperty` properties.
    pub fn inverse_functional_properties(&self) -> (r: &IdSet)
        ensures
            r@ == self.inverse_functional(),
    {
        &self.inverse_functional_properties
    }

    /// The property-disjointness edges.
    pub fn property_disjoint_pairs(&self) -> (r: &IdSetMap)
        ensures
            r@ == self.disjoint_pairs(),
    {
        &self.property_disjoint_pairs
    }
}

} // verus!
