//! Array operations: traversal, reversal, insertion, deletion, and merging.

use vstd::prelude::*;
use crate::sort::merge_sort;
use crate::sort::sorted;

verus! {

/// Traverse the array, applying `process` to each element in order.
pub fn traverse<T, F: Fn(&T)>(arr: &Vec<T>, process: F)
    requires
        forall|i: int| 0 <= i < arr@.len() ==> call_requires(process, (&arr@[i],)),
{
    let mut idx: usize = 0;
    while idx < arr.len()
        invariant
            0 <= idx <= arr@.len(),
            forall|i: int| 0 <= i < arr@.len() ==> call_requires(process, (&arr@[i],)),
        decreases arr@.len() - idx,
    {
        process(&arr[idx]);
        idx += 1;
    }
}

/// Reverse array elements in-place.
pub fn reverse(arr: &mut Vec<i64>)
    ensures
        final(arr)@ == old(arr)@.reverse(),
{
    let mut start: usize = 0;
    let mut end: usize = arr.len();
    while end - start > 1
        invariant
            0 <= start <= end <= arr@.len(),
            arr@.len() == old(arr)@.len(),
            start + end == arr@.len(),
            forall|i: int| 0 <= i < start ==> arr@[i] == old(arr)@[arr@.len() - 1 - i],
            forall|i: int| end <= i < arr@.len() ==> arr@[i] == old(arr)@[arr@.len() - 1 - i],
            forall|i: int| start <= i < end ==> arr@[i] == old(arr)@[i],
        decreases end - start,
    {
        let tmp: i64 = arr[start];
        let last: i64 = arr[end - 1];
        arr[start] = last;
        arr[end - 1] = tmp;
        start += 1;
        end -= 1;
    }
    proof {
        assert(arr@ =~= old(arr)@.reverse());
    }
}

/// Insert element at specified position, shifting later elements right.
pub fn insert<T: Clone>(arr: &mut Vec<T>, element: T, position: usize)
    requires
        position <= old(arr)@.len(),
    ensures
        final(arr)@ == old(arr)@.insert(position as int, element),
{
    arr.insert(position, element);
}

/// Delete element at specified position, shifting later elements left.
pub fn delete<T>(arr: &mut Vec<T>, position: usize)
    requires
        position < old(arr)@.len(),
    ensures
        final(arr)@ == old(arr)@.remove(position as int),
{
    arr.remove(position);
}

/// Merge two arrays and sort the result.
pub fn merge_and_sort(arr1: &Vec<i64>, arr2: &Vec<i64>) -> (merged: Vec<i64>)
    ensures
        sorted(merged@),
        merged@.to_multiset() == arr1@.to_multiset().add(arr2@.to_multiset()),
{
    let mut merged: Vec<i64> = Vec::new();
    let mut i: usize = 0;
    proof {
        assert(merged@ =~= arr1@.subrange(0, 0));
    }
    while i < arr1.len()
        invariant
            0 <= i <= arr1@.len(),
            merged@ == arr1@.subrange(0, i as int),
        decreases arr1@.len() - i,
    {
        merged.push(arr1[i]);
        proof {
            assert(merged@ =~= arr1@.subrange(0, i + 1));
        }
        i += 1;
    }
    let mut j: usize = 0;
    proof {
        assert(arr1@.subrange(0, arr1@.len() as int) =~= arr1@);
        assert(merged@ =~= arr1@ + arr2@.subrange(0, 0));
    }
    while j < arr2.len()
        invariant
            0 <= j <= arr2@.len(),
            merged@ == arr1@ + arr2@.subrange(0, j as int),
        decreases arr2@.len() - j,
    {
        merged.push(arr2[j]);
        proof {
            assert(merged@ =~= arr1@ + arr2@.subrange(0, j + 1));
        }
        j += 1;
    }
    proof {
        assert(arr1@.subrange(0, arr1@.len() as int) =~= arr1@);
        assert(arr2@.subrange(0, arr2@.len() as int) =~= arr2@);
        vstd::seq_lib::lemma_multiset_commutative(arr1@, arr2@);
    }
    merge_sort(&mut merged);
    merged
}

} // verus!
