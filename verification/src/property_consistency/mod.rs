use vstd::prelude::*;

pub mod builders;
pub mod detectors;
pub mod plan;
pub mod prepared;

use crate::class_consistency::ConsistencyViolation;
use crate::dataset_index::spec::{characteristic_set, TypeKind};
use crate::dataset_index::{expanded_disjoint_properties, IndexedDataset};
use crate::property_closure::PropertyClosure;
use crate::property_consistency::detectors::{
    asymmetric_reported, detect_property_characteristic_conflicts_prepared, disjoint_property_reported,
    irreflexive_reported,
};
use crate::property_consistency::plan::PropertyCharacteristicPlan;
use crate::property_consistency::prepared::{constrained_assertions, PreparedPropertyAssertions};

verus! {

/// The properties that `index` gives a characteristic the checks look at.
pub open spec fn declared_constrained(index: IndexedDataset) -> Set<u32> {
    let v = index.vocab();
    let ts = index.source();
    characteristic_set(v, ts, TypeKind::Irreflexive)
        .union(characteristic_set(v, ts, TypeKind::Asymmetric))
        .union(characteristic_set(v, ts, TypeKind::Functional))
        .union(characteristic_set(v, ts, TypeKind::InverseFunctional))
        .union(expanded_disjoint_properties(v, ts).dom())
}

/// Reports, against the property characteristics that `index` declares,
/// the irreflexive, then the asymmetric, then the disjoint-property
/// conflicts among the effective assertions of `property_closure`.
pub fn detect_property_characteristic_conflicts(index: &IndexedDataset, property_closure: &PropertyClosure) -> (r: Vec<
    ConsistencyViolation,
>)
    ensures
        exists|a: int, b: int|
            0 <= a <= b <= r@.len() && irreflexive_reported(
                #[trigger] r@.take(a),
                constrained_assertions(property_closure.all(), declared_constrained(*index)),
                characteristic_set(index.vocab(), index.source(), TypeKind::Irreflexive),
                index.terms(),
            ) && asymmetric_reported(
                #[trigger] r@.subrange(a, b),
                constrained_assertions(property_closure.all(), declared_constrained(*index)),
                characteristic_set(index.vocab(), index.source(), TypeKind::Asymmetric),
                index.terms(),
            ) && disjoint_property_reported(
                r@.subrange(b, r@.len() as int),
                constrained_assertions(property_closure.all(), declared_constrained(*index)),
                expanded_disjoint_properties(index.vocab(), index.source()),
                index.terms(),
            ),
{
    let plan = PropertyCharacteristicPlan::build(index);
    let prepared = PreparedPropertyAssertions::build(&plan, property_closure.all_assertions());
    proof {
        assert(plan.constrained() =~= declared_constrained(*index));
    }
    detect_property_characteristic_conflicts_prepared(index, &plan, &prepared)
}

} // verus!
