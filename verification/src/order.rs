//! Comparing values of a type by the order that the type states.

use crate::accuracy::Accuracy;
use core::cmp::Ordering;
use vstd::prelude::*;
use vstd::std_specs::cmp::PartialOrdSpec;

verus! {

/// Whether `a` is greater than `b` in the order of their type.
pub open spec fn greater<V: PartialOrd>(a: V, b: V) -> bool {
    a.partial_cmp_spec(&b) == Some(Ordering::Greater)
}

/// Whether comparisons of values of the type go by the order that the type states.
pub open spec fn keeps_order<V: PartialOrd>() -> bool {
    V::obeys_partial_cmp_spec()
}

/// One accuracy is greater than another in the order of the type exactly when
/// it exceeds it.
pub proof fn lemma_greater_accuracy(a: Accuracy, b: Accuracy)
    ensures
        greater(a, b) <==> a.exceeds(b),
        keeps_order::<Accuracy>(),
{
}

} // verus!
