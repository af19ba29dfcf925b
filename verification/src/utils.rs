//! Small helpers.

use vstd::prelude::*;
use vstd::std_specs::cmp::PartialEqSpec;

verus! {

/// The two sequences have the same length and equal values place by place,
/// equal as `==` on `T` has it.
pub open spec fn same_values<T: PartialEq>(a: Seq<T>, b: Seq<T>) -> bool {
    a.len() == b.len() && forall|i: int| 0 <= i < a.len() ==> (#[trigger] a[i]).eq_spec(&b[i])
}

/// Whether two slices hold the same values in the same order.
pub fn equal_slice<T>(a: &[T], b: &[T]) -> (same: bool) where T: Eq
    ensures
        T::obeys_eq_spec() ==> same == same_values(a@, b@),
        a.len() != b.len() ==> !same,
{
    if a.len() != b.len() {
        return false;
    }
    let mut i: usize = 0;
    while i < a.len()
        invariant
            i <= a.len(),
            a.len() == b.len(),
            T::obeys_eq_spec() ==> forall|j: int| 0 <= j < i ==> (#[trigger] a@[j]).eq_spec(&b@[j]),
        decreases a.len() - i,
    {
        if a[i] != b[i] {
            return false;
        }
        i += 1;
    }
    true
}

} // verus!
