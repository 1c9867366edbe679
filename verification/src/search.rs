//! Binary search over a sorted integer array.

use vstd::prelude::*;
use crate::sort::sorted;

verus! {

/// Find the index of `target` in the sorted array `arr`, or `None` if the
/// value does not occur.
pub fn binary_search(arr: &Vec<i64>, target: &i64) -> (found: Option<usize>)
    requires
        sorted(arr@),
    ensures
        match found {
            Some(index) => index < arr@.len() && arr@[index as int] == *target,
            None => forall|k: int| 0 <= k < arr@.len() ==> arr@[k] != *target,
        },
{
    let mut left: usize = 0;
    let mut right: usize = arr.len();

    while left < right
        invariant
            0 <= left <= right <= arr@.len(),
            sorted(arr@),
            forall|k: int| 0 <= k < left ==> arr@[k] < *target,
            forall|k: int| right <= k < arr@.len() ==> arr@[k] > *target,
        decreases right - left,
    {
        let mid: usize = left + (right - left) / 2;
        if arr[mid] < *target {
            left = mid + 1;
        } else if arr[mid] > *target {
            right = mid;
        } else {
            return Some(mid);
        }
    }
    None
}

} // verus!
