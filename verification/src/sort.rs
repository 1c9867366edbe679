//! Merge sort over integer arrays.

use vstd::prelude::*;
use vstd::multiset::Multiset;
use vstd::seq_lib::lemma_multiset_commutative;

verus! {

broadcast use
    vstd::seq_lib::to_multiset_build,
    vstd::seq_lib::to_multiset_len,
    vstd::multiset::lemma_multiset_empty_len,
    vstd::multiset::group_multiset_axioms;

/// The sequence is in non-decreasing order.
pub open spec fn sorted(s: Seq<i64>) -> bool {
    forall|i: int, j: int| 0 <= i <= j < s.len() ==> s[i] <= s[j]
}

/// Appending an element no smaller than the last keeps a sequence sorted.
proof fn lemma_sorted_push(s: Seq<i64>, x: i64)
    requires
        sorted(s),
        s.len() > 0 ==> s[s.len() - 1] <= x,
    ensures
        sorted(s.push(x)),
{
    assert forall|m: int, n: int| 0 <= m <= n < s.push(x).len() implies s.push(x)[m] <= s.push(
        x,
    )[n] by {
        if n < s.len() {
            assert(s.push(x)[m] == s[m]);
            assert(s.push(x)[n] == s[n]);
        } else if m < s.len() {
            assert(s.push(x)[m] == s[m]);
            assert(s[m] <= s[s.len() - 1]);
        }
    }
}

/// Sort the array in-place, keeping exactly the same elements.
pub fn merge_sort(arr: &mut Vec<i64>)
    ensures
        sorted(final(arr)@),
        final(arr)@.len() == old(arr)@.len(),
        final(arr)@.to_multiset() == old(arr)@.to_multiset(),
    decreases old(arr)@.len(),
{
    if arr.len() > 1 {
        let mid: usize = arr.len() / 2;
        let mut left: Vec<i64> = Vec::new();
        let mut right: Vec<i64> = Vec::new();
        let mut i: usize = 0;
        while i < mid
            invariant
                0 <= i <= mid <= arr@.len(),
                arr@ == old(arr)@,
                left@ == arr@.subrange(0, i as int),
            decreases mid - i,
        {
            let x: i64 = arr[i];
            left.push(x);
            proof {
                assert(left@ =~= arr@.subrange(0, i + 1));
            }
            i += 1;
        }
        let mut j: usize = mid;
        while j < arr.len()
            invariant
                mid <= j <= arr@.len(),
                arr@ == old(arr)@,
                right@ == arr@.subrange(mid as int, j as int),
            decreases arr@.len() - j,
        {
            let x: i64 = arr[j];
            right.push(x);
            proof {
                assert(right@ =~= arr@.subrange(mid as int, j + 1));
            }
            j += 1;
        }
        merge_sort(&mut left);
        merge_sort(&mut right);
        merge(arr, &left, &right);
        proof {
            let a = old(arr)@.subrange(0, mid as int);
            let b = old(arr)@.subrange(mid as int, old(arr)@.len() as int);
            lemma_multiset_commutative(a, b);
            assert(a + b =~= old(arr)@);
        }
    }
}

/// Merge two sorted arrays into `arr`, which must have exactly enough room.
fn merge(arr: &mut Vec<i64>, left: &Vec<i64>, right: &Vec<i64>)
    requires
        sorted(left@),
        sorted(right@),
        old(arr)@.len() == left@.len() + right@.len(),
    ensures
        sorted(final(arr)@),
        final(arr)@.len() == old(arr)@.len(),
        final(arr)@.to_multiset() == left@.to_multiset().add(right@.to_multiset()),
{
    let mut i: usize = 0;
    let mut j: usize = 0;
    let mut k: usize = 0;

    proof {
        assert(arr@.subrange(0, 0) =~= Seq::<i64>::empty());
        assert(left@.subrange(0, 0) =~= Seq::<i64>::empty());
        assert(right@.subrange(0, 0) =~= Seq::<i64>::empty());
        assert(Seq::<i64>::empty().to_multiset().len() == 0);
        assert(Seq::<i64>::empty().to_multiset() =~= Multiset::<i64>::empty());
    }

    // Merge elements from left and right into arr
    while i < left.len() && j < right.len()
        invariant
            i <= left@.len(),
            j <= right@.len(),
            k == i + j,
            arr@.len() == left@.len() + right@.len(),
            sorted(left@),
            sorted(right@),
            sorted(arr@.subrange(0, k as int)),
            arr@.subrange(0, k as int).to_multiset() == left@.subrange(
                0,
                i as int,
            ).to_multiset().add(right@.subrange(0, j as int).to_multiset()),
            k > 0 && i < left@.len() ==> arr@[k - 1] <= left@[i as int],
            k > 0 && j < right@.len() ==> arr@[k - 1] <= right@[j as int],
        decreases left@.len() + right@.len() - k,
    {
        let ghost arr0 = arr@;
        let ghost k0 = k as int;
        let ghost i0 = i as int;
        let ghost j0 = j as int;
        if left[i] <= right[j] {
            let x: i64 = left[i];
            arr[k] = x;
            i += 1;
            proof {
                assert(arr@.subrange(0, k0 + 1) =~= arr0.subrange(0, k0).push(x));
                assert(left@.subrange(0, i0 + 1) =~= left@.subrange(0, i0).push(x));
                lemma_sorted_push(arr0.subrange(0, k0), x);
                assert(arr@.subrange(0, k0 + 1).to_multiset() =~= left@.subrange(
                    0,
                    i0 + 1,
                ).to_multiset().add(right@.subrange(0, j0).to_multiset()));
            }
        } else {
            let x: i64 = right[j];
            arr[k] = x;
            j += 1;
            proof {
                assert(arr@.subrange(0, k0 + 1) =~= arr0.subrange(0, k0).push(x));
                assert(right@.subrange(0, j0 + 1) =~= right@.subrange(0, j0).push(x));
                lemma_sorted_push(arr0.subrange(0, k0), x);
                assert(arr@.subrange(0, k0 + 1).to_multiset() =~= left@.subrange(
                    0,
                    i0,
                ).to_multiset().add(right@.subrange(0, j0 + 1).to_multiset()));
            }
        }
        proof {
            assert(k < arr.len());
        }
        k += 1;
    }

    while i < left.len()
        invariant
            i <= left@.len(),
            j <= right@.len(),
            k == i + j,
            arr@.len() == left@.len() + right@.len(),
            sorted(left@),
            sorted(arr@.subrange(0, k as int)),
            arr@.subrange(0, k as int).to_multiset() == left@.subrange(
                0,
                i as int,
            ).to_multiset().add(right@.subrange(0, j as int).to_multiset()),
            k > 0 && i < left@.len() ==> arr@[k - 1] <= left@[i as int],
            k > 0 && j < right@.len() ==> arr@[k - 1] <= right@[j as int],
            j < right@.len() ==> i == left@.len(),
        decreases left@.len() - i,
    {
        let ghost arr0 = arr@;
        let ghost k0 = k as int;
        let ghost i0 = i as int;
        let ghost j0 = j as int;
        let x: i64 = left[i];
        arr[k] = x;
        i += 1;
        proof {
            assert(k < arr.len());
        }
        k += 1;
        proof {
            assert(arr@.subrange(0, k0 + 1) =~= arr0.subrange(0, k0).push(x));
            assert(left@.subrange(0, i0 + 1) =~= left@.subrange(0, i0).push(x));
            lemma_sorted_push(arr0.subrange(0, k0), x);
            assert(arr@.subrange(0, k0 + 1).to_multiset() =~= left@.subrange(
                0,
                i0 + 1,
            ).to_multiset().add(right@.subrange(0, j0).to_multiset()));
        }
    }

    while j < right.len()
        invariant
            i <= left@.len(),
            j <= right@.len(),
            k == i + j,
            arr@.len() == left@.len() + right@.len(),
            sorted(right@),
            sorted(arr@.subrange(0, k as int)),
            arr@.subrange(0, k as int).to_multiset() == left@.subrange(
                0,
                i as int,
            ).to_multiset().add(right@.subrange(0, j as int).to_multiset()),
            k > 0 && j < right@.len() ==> arr@[k - 1] <= right@[j as int],
            j < right@.len() ==> i == left@.len(),
        decreases right@.len() - j,
    {
        let ghost arr0 = arr@;
        let ghost k0 = k as int;
        let ghost i0 = i as int;
        let ghost j0 = j as int;
        let x: i64 = right[j];
        arr[k] = x;
        j += 1;
        proof {
            assert(k < arr.len());
        }
        k += 1;
        proof {
            assert(arr@.subrange(0, k0 + 1) =~= arr0.subrange(0, k0).push(x));
            assert(right@.subrange(0, j0 + 1) =~= right@.subrange(0, j0).push(x));
            lemma_sorted_push(arr0.subrange(0, k0), x);
            assert(arr@.subrange(0, k0 + 1).to_multiset() =~= left@.subrange(
                0,
                i0,
            ).to_multiset().add(right@.subrange(0, j0 + 1).to_multiset()));
        }
    }

    proof {
        assert(arr@.subrange(0, k as int) =~= arr@);
        assert(left@.subrange(0, i as int) =~= left@);
        assert(right@.subrange(0, j as int) =~= right@);
    }
}

} // verus!
