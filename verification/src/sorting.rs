//! Three comparison sorts: bubble sort, insertion sort and selection sort.
//!
//! The sorts are generic over the element type and compare through the
//! standard operators, so the contracts follow the same discipline as the
//! searches: every call leaves a permutation of its input, and for an
//! element type whose comparison behaves as a total order
//! ([`total_order_on`]) the result is additionally proved sorted.

use vstd::prelude::*;
use vstd::std_specs::cmp::PartialOrdSpec;

use crate::searching::cmp_of;
use crate::searching::le_spec;
use crate::searching::sorted_le;
use crate::searching::total_order_on;

verus! {

/// Relies on `<[T]>::swap`: exchanges the elements at the two given
/// indices.
#[verifier::external_body]
fn swap_items<T>(arr: &mut Vec<T>, i: usize, j: usize)
    requires
        i < old(arr)@.len(),
        j < old(arr)@.len(),
    ensures
        final(arr)@ == old(arr)@.update(i as int, old(arr)@[j as int]).update(
            j as int,
            old(arr)@[i as int],
        ),
{
    arr.swap(i, j)
}

/// Exchanging two positions of a sequence leaves its multiset of elements
/// unchanged.
proof fn lemma_swap_multiset<T>(s: Seq<T>, i: int, j: int)
    requires
        0 <= i < s.len(),
        0 <= j < s.len(),
    ensures
        s.update(i, s[j]).update(j, s[i]).to_multiset() == s.to_multiset(),
{
    broadcast use vstd::seq_lib::group_to_multiset_ensures;
    broadcast use vstd::seq_lib::to_multiset_update;

    if i == j {
        assert(s.update(i, s[j]).update(j, s[i]) =~= s);
    } else {
        assert(s.contains(s[i]));
        assert(s.contains(s[j]));
        assert(s.update(i, s[j]).update(j, s[i]).to_multiset() =~= s.to_multiset());
    }
}

/// In a total order every value compares equal to itself.
proof fn lemma_le_refl<T: PartialEq + PartialOrd>(x: T)
    requires
        total_order_on::<T>(),
    ensures
        le_spec(x, x),
{
    if cmp_of(x, x) == Some(core::cmp::Ordering::Less) {
        assert(cmp_of(x, x) == Some(core::cmp::Ordering::Greater));
    }
}

/// A sequence whose adjacent pairs compare in order within `[a, b)` is
/// sorted within `[a, b)`: `s[p]` compares at most `s[q]` for
/// `a <= p < q < b`.
proof fn lemma_chain_le<T: PartialEq + PartialOrd>(s: Seq<T>, a: int, b: int, p: int, q: int)
    requires
        total_order_on::<T>(),
        0 <= a <= p <= q < b <= s.len(),
        forall|r: int| a <= r < b - 1 ==> le_spec(#[trigger] s[r], s[r + 1]),
    ensures
        le_spec(s[p], s[q]),
    decreases q - p,
{
    if p == q {
        lemma_le_refl(s[p]);
    } else {
        lemma_chain_le(s, a, b, p, q - 1);
        assert(le_spec(s[q - 1], s[q]));
    }
}

/// Every element at or past position `k` is at least every element before
/// it: the tail `[k, len)` is sorted and dominates the prefix.
pub open spec fn suffix_maximal<T: PartialOrd>(s: Seq<T>, k: int) -> bool {
    forall|p: int, q: int|
        0 <= p < q < s.len() && k <= q ==> le_spec(#[trigger] s[p], #[trigger] s[q])
}

/// Sorts `arr` in place by bubbling: repeated passes swap adjacent
/// out-of-order elements, and a pass without a swap ends the sort early.
///
/// The result is always a permutation of the input; for an element type
/// whose comparison behaves as a total order it is sorted.
pub fn bubble_sort<T: PartialOrd>(arr: &mut Vec<T>)
    ensures
        final(arr)@.to_multiset() == old(arr)@.to_multiset(),
        total_order_on::<T>() ==> sorted_le(final(arr)@),
{
    let ghost g = total_order_on::<T>();
    let len = arr.len();
    let mut i: usize = 0;
    while i < len
        invariant
            g == total_order_on::<T>(),
            len == arr@.len(),
            i <= len,
            arr@.to_multiset() == old(arr)@.to_multiset(),
            g ==> suffix_maximal(arr@, len - i),
        decreases len - i,
    {
        let mut flag = true;
        let mut j: usize = 0;
        while j < len - i - 1
            invariant
                g == total_order_on::<T>(),
                len == arr@.len(),
                i < len,
                j <= len - i - 1,
                arr@.to_multiset() == old(arr)@.to_multiset(),
                g ==> suffix_maximal(arr@, len - i),
                g ==> forall|p: int| 0 <= p < j ==> le_spec(#[trigger] arr@[p], arr@[j as int]),
                g && flag ==> forall|p: int|
                    0 <= p < j ==> le_spec(#[trigger] arr@[p], arr@[p + 1]),
            decreases len - i - 1 - j,
        {
            let ghost pre = arr@;
            let a: &T = &arr[j];
            let b: &T = &arr[j + 1];
            if a.gt(b) {
                flag = false;
                swap_items(arr, j, j + 1);
                proof {
                    lemma_swap_multiset(pre, j as int, j + 1);
                    if g {
                        assert forall|p: int| 0 <= p < j + 1 implies le_spec(
                            #[trigger] arr@[p],
                            arr@[j + 1],
                        ) by {
                            if p < j {
                                assert(le_spec(pre[p], pre[j as int]));
                            }
                        }
                        assert(suffix_maximal(arr@, len - i));
                    }
                }
            } else {
                proof {
                    if g {
                        assert forall|p: int| 0 <= p < j + 1 implies le_spec(
                            #[trigger] arr@[p],
                            arr@[j + 1],
                        ) by {
                            if p < j {
                                assert(le_spec(arr@[p], arr@[j as int]));
                                assert(le_spec(arr@[j as int], arr@[j + 1]));
                            }
                        }
                    }
                }
            }
            j = j + 1;
        }
        if flag {
            proof {
                if g {
                    assert forall|p: int, q: int| 0 <= p < q < arr@.len() implies le_spec(
                        #[trigger] arr@[p],
                        #[trigger] arr@[q],
                    ) by {
                        if q <= len - i - 1 {
                            lemma_chain_le(arr@, 0, len as int - i as int, p, q);
                        }
                    }
                }
            }
            return;
        }
        proof {
            if g {
                assert(suffix_maximal(arr@, len - i - 1));
            }
        }
        i = i + 1;
    }
}

/// The elements of `s` are mutually ordered within the index range
/// `[a, b)`.
pub open spec fn sorted_within<T: PartialOrd>(s: Seq<T>, a: int, b: int) -> bool {
    forall|p: int, q: int|
        a <= p < q < b && 0 <= p && q < s.len() ==> le_spec(#[trigger] s[p], #[trigger] s[q])
}

/// Every element before position `k` is at most every element after it,
/// and the prefix `[0, k)` is sorted.
pub open spec fn prefix_minimal<T: PartialOrd>(s: Seq<T>, k: int) -> bool {
    forall|p: int, q: int|
        0 <= p < q < s.len() && p < k ==> le_spec(#[trigger] s[p], #[trigger] s[q])
}

/// Sorts `arr` in place by selection: each round swaps the least remaining
/// element into the next position.
///
/// The result is always a permutation of the input; for an element type
/// whose comparison behaves as a total order it is sorted.
pub fn selection_sort<T: PartialOrd>(arr: &mut Vec<T>)
    ensures
        final(arr)@.to_multiset() == old(arr)@.to_multiset(),
        total_order_on::<T>() ==> sorted_le(final(arr)@),
{
    let ghost g = total_order_on::<T>();
    let len = arr.len();
    if len == 0 {
        return;
    }
    let mut i: usize = 0;
    while i < len - 1
        invariant
            g == total_order_on::<T>(),
            len == arr@.len(),
            0 < len,
            i <= len - 1,
            arr@.to_multiset() == old(arr)@.to_multiset(),
            g ==> prefix_minimal(arr@, i as int),
        decreases len - i,
    {
        let mut min_idx: usize = i;
        let mut j: usize = i + 1;
        proof {
            if g {
                lemma_le_refl(arr@[i as int]);
            }
        }
        while j < len
            invariant
                g == total_order_on::<T>(),
                len == arr@.len(),
                i < len - 1,
                i + 1 <= j <= len,
                i <= min_idx < len,
                arr@.to_multiset() == old(arr)@.to_multiset(),
                g ==> prefix_minimal(arr@, i as int),
                g ==> forall|t: int|
                    i <= t < j ==> le_spec(arr@[min_idx as int], #[trigger] arr@[t]),
            decreases len - j,
        {
            let a: &T = &arr[j];
            let b: &T = &arr[min_idx];
            if a.lt(b) {
                proof {
                    if g {
                        lemma_le_refl(arr@[j as int]);
                        assert forall|t: int| i <= t < j + 1 implies le_spec(
                            arr@[j as int],
                            #[trigger] arr@[t],
                        ) by {
                            if t < j {
                                assert(le_spec(arr@[min_idx as int], arr@[t]));
                            }
                        }
                    }
                }
                min_idx = j;
            } else {
                proof {
                    if g {
                        assert(le_spec(arr@[min_idx as int], arr@[j as int]));
                    }
                }
            }
            j = j + 1;
        }
        let ghost pre = arr@;
        swap_items(arr, i, min_idx);
        proof {
            lemma_swap_multiset(pre, i as int, min_idx as int);
            if g {
                assert forall|p: int, q: int|
                    0 <= p < q < arr@.len() && p < i + 1 implies le_spec(
                    #[trigger] arr@[p],
                    #[trigger] arr@[q],
                ) by {
                    if p < i {
                        assert(le_spec(pre[p], pre[q]));
                        assert(le_spec(pre[p], pre[i as int]));
                        assert(le_spec(pre[p], pre[min_idx as int]));
                    } else {
                        assert(le_spec(pre[min_idx as int], pre[q]));
                        assert(le_spec(pre[min_idx as int], pre[i as int]));
                    }
                }
            }
        }
        i = i + 1;
    }
    proof {
        if g {
            assert forall|p: int, q: int| 0 <= p < q < arr@.len() implies le_spec(
                #[trigger] arr@[p],
                #[trigger] arr@[q],
            ) by {
                assert(prefix_minimal(arr@, len - 1));
            }
        }
    }
}

/// Sorts `arr` in place by insertion: each element is swapped backwards
/// through the sorted prefix until it is in place.
///
/// The result is always a permutation of the input; for an element type
/// whose comparison behaves as a total order it is sorted.
pub fn insertion_sort<T: PartialOrd>(arr: &mut Vec<T>)
    ensures
        final(arr)@.to_multiset() == old(arr)@.to_multiset(),
        total_order_on::<T>() ==> sorted_le(final(arr)@),
{
    let ghost g = total_order_on::<T>();
    let len = arr.len();
    if len == 0 {
        return;
    }
    let mut i: usize = 1;
    while i < len
        invariant
            g == total_order_on::<T>(),
            len == arr@.len(),
            1 <= i <= len,
            arr@.to_multiset() == old(arr)@.to_multiset(),
            g ==> sorted_within(arr@, 0, i as int),
        decreases len - i,
    {
        let mut j: usize = i;
        loop
            invariant
                g == total_order_on::<T>(),
                len == arr@.len(),
                1 <= i < len,
                j <= i,
                arr@.to_multiset() == old(arr)@.to_multiset(),
                g ==> sorted_within(arr@, 0, j as int),
                g ==> sorted_within(arr@, j as int, i + 1),
                g ==> forall|p: int, q: int|
                    #![trigger arr@[p], arr@[q]]
                    0 <= p < j && j < q <= i ==> le_spec(arr@[p], arr@[q]),
            ensures
                len == arr@.len(),
                arr@.to_multiset() == old(arr)@.to_multiset(),
                g ==> sorted_within(arr@, 0, i + 1),
            decreases j,
        {
            if j == 0 {
                break;
            }
            let a: &T = &arr[j - 1];
            let b: &T = &arr[j];
            if !a.gt(b) {
                proof {
                    if g {
                        assert forall|p: int, q: int|
                            0 <= p < q < i + 1 implies le_spec(
                            #[trigger] arr@[p],
                            #[trigger] arr@[q],
                        ) by {
                            if p < j && q == j {
                                if p < j - 1 {
                                    assert(le_spec(arr@[p], arr@[j - 1]));
                                }
                                assert(le_spec(arr@[j - 1], arr@[j as int]));
                            }
                        }
                    }
                }
                break;
            }
            let ghost pre = arr@;
            swap_items(arr, j - 1, j);
            proof {
                lemma_swap_multiset(pre, j - 1, j as int);
                if g {
                    assert(le_spec(pre[j as int], pre[j - 1]));
                    assert forall|p: int, q: int|
                        j - 1 <= p < q < i + 1 && 0 <= p implies le_spec(
                        #[trigger] arr@[p],
                        #[trigger] arr@[q],
                    ) by {
                        if p == j - 1 && q == j {
                        } else if p == j - 1 {
                            assert(le_spec(pre[j as int], pre[q]));
                        } else if p == j {
                            assert(le_spec(pre[j - 1], pre[q]));
                        } else {
                            assert(le_spec(pre[p], pre[q]));
                        }
                    }
                    assert forall|p: int, q: int|
                        #![trigger arr@[p], arr@[q]]
                        0 <= p < j - 1 && j - 1 < q <= i implies le_spec(arr@[p], arr@[q]) by {
                        if q == j {
                            assert(le_spec(pre[p], pre[j - 1]));
                        } else {
                            assert(le_spec(pre[p], pre[q]));
                        }
                    }
                }
            }
            j = j - 1;
        }
        i = i + 1;
    }
    proof {
        if g {
            assert forall|p: int, q: int| 0 <= p < q < arr@.len() implies le_spec(
                #[trigger] arr@[p],
                #[trigger] arr@[q],
            ) by {
                assert(sorted_within(arr@, 0, len as int));
            }
        }
    }
}

} // verus!
