//! Binary search over a sorted slice.

use vstd::prelude::*;

verus! {

/// The elements of `s` are in non-decreasing order.
pub open spec fn sorted(s: Seq<i32>) -> bool {
    forall|i: int, j: int| 0 <= i <= j < s.len() ==> s[i] <= s[j]
}

/// Finds an index holding `target` in a sorted slice by repeatedly halving
/// the candidate range; returns `None` exactly when `target` is absent.
pub fn binary_search(values: &[i32], target: i32) -> (r: Option<usize>)
    requires
        sorted(values@),
    ensures
        match r {
            Some(i) => i < values@.len() && values@[i as int] == target,
            None => forall|i: int| 0 <= i < values@.len() ==> values@[i] != target,
        },
{
    let mut low: usize = 0;
    let mut high: usize = values.len();
    while low < high
        invariant
            low <= high <= values@.len(),
            sorted(values@),
            forall|i: int|
                0 <= i < values@.len() && !(low <= i < high) ==> values@[i] != target,
        decreases high - low,
    {
        let mid = low + (high - low) / 2;
        if values[mid] < target {
            low = mid + 1;
        } else if values[mid] > target {
            high = mid;
        } else {
            return Some(mid);
        }
    }
    None
}

} // verus!
