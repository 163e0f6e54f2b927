//! Linear and binary search over slices.
//!
//! Both searches are generic over the element type and call the standard
//! comparison operators. What those operators compute is only known to the
//! verifier for types whose comparison obeys its specification
//! (`obeys_eq_spec` / `obeys_partial_cmp_spec`), so each contract is stated
//! conditionally: for well-behaved element types (the integers, for
//! instance) it pins the result down; for types whose comparison promises
//! nothing (floating point, say) the functions still run but the contract
//! claims nothing.

use core::cmp::Ordering;
use vstd::prelude::*;
use vstd::std_specs::cmp::PartialEqSpec;
use vstd::std_specs::cmp::PartialOrdSpec;

verus! {

/// No element of `s` before position `end` compares equal to `value`.
pub open spec fn no_match_upto<T: PartialEq>(s: Seq<T>, value: &T, end: int) -> bool {
    forall|j: int| 0 <= j < end ==> !(#[trigger] s[j].eq_spec(value))
}

/// Searches `arr` front to back and returns the index of the first element
/// that compares equal to `value`.
pub fn linear_search<T: PartialEq>(arr: &[T], value: &T) -> (r: Option<usize>)
    ensures
        T::obeys_eq_spec() ==> match r {
            Some(i) => i < arr@.len() && arr@[i as int].eq_spec(value) && no_match_upto(
                arr@,
                value,
                i as int,
            ),
            None => no_match_upto(arr@, value, arr@.len() as int),
        },
{
    let mut i: usize = 0;
    while i < arr.len()
        invariant
            i <= arr@.len(),
            T::obeys_eq_spec() ==> no_match_upto(arr@, value, i as int),
        decreases arr@.len() - i,
    {
        let candidate: &T = &arr[i];
        if candidate.eq(value) {
            return Some(i);
        }
        i = i + 1;
    }
    None
}

/// What `partial_cmp` is specified to return on `x` and `y`.
pub open spec fn cmp_of<T: PartialOrd>(x: T, y: T) -> Option<Ordering> {
    x.partial_cmp_spec(&y)
}

/// `x` compares less than or equal to `y`.
pub open spec fn le_spec<T: PartialOrd>(x: T, y: T) -> bool {
    cmp_of(x, y) matches Some(Ordering::Less | Ordering::Equal)
}

/// The comparison on `T` behaves as a total order that agrees with
/// equality: both operators obey their specifications, every two values
/// compare `Some`, equality is exactly the `Equal` outcome, the order is
/// antisymmetric and `<=` is transitive. The integer types are the typical
/// examples; a partial order such as the one on floating point is not.
pub open spec fn total_order_on<T: PartialEq + PartialOrd>() -> bool {
    &&& T::obeys_eq_spec()
    &&& T::obeys_partial_cmp_spec()
    &&& forall|x: T, y: T| (#[trigger] cmp_of(x, y)) is Some
    &&& forall|x: T, y: T| #![trigger x.eq_spec(&y)] x.eq_spec(&y) <==> cmp_of(x, y) == Some(
        Ordering::Equal,
    )
    &&& forall|x: T, y: T| #![trigger cmp_of(x, y)] cmp_of(x, y) == Some(Ordering::Less)
        <==> cmp_of(y, x) == Some(Ordering::Greater)
    &&& forall|x: T, y: T| #![trigger cmp_of(x, y)] cmp_of(x, y) == Some(Ordering::Equal)
        <==> cmp_of(y, x) == Some(Ordering::Equal)
    &&& forall|x: T, y: T, z: T| #![trigger cmp_of(x, y), cmp_of(y, z)] le_spec(x, y) && le_spec(
        y,
        z,
    ) ==> le_spec(x, z)
}

/// `s` is sorted: each element compares less than or equal to every later
/// one.
pub open spec fn sorted_le<T: PartialOrd>(s: Seq<T>) -> bool {
    forall|i: int, j: int| 0 <= i < j < s.len() ==> le_spec(#[trigger] s[i], #[trigger] s[j])
}

/// Searches the sorted slice `arr` by bisection for an element that
/// compares equal to `value`.
///
/// For an element type whose comparison is a total order, and a sorted
/// slice, the result is `Some` exactly when such an element exists, and
/// the returned index holds one. Whatever the type and input, a returned
/// index is in bounds and — for a type whose equality obeys its
/// specification — holds a matching element.
pub fn binary_search<T: PartialEq + PartialOrd>(arr: &[T], value: &T) -> (r: Option<usize>)
    requires
        arr@.len() < usize::MAX / 2,
    ensures
        r matches Some(i) ==> i < arr@.len(),
        T::obeys_eq_spec() ==> (r matches Some(i) ==> arr@[i as int].eq_spec(value)),
        total_order_on::<T>() && sorted_le(arr@) ==> match r {
            Some(i) => i < arr@.len() && arr@[i as int].eq_spec(value),
            None => no_match_upto(arr@, value, arr@.len() as int),
        },
{
    let ghost g = total_order_on::<T>() && sorted_le(arr@);
    if arr.len() == 0 {
        return None;
    }
    let mut left: usize = 0;
    let mut right: usize = arr.len() - 1;
    while left <= right
        invariant
            g == (total_order_on::<T>() && sorted_le(arr@)),
            arr@.len() > 0,
            arr@.len() < usize::MAX / 2,
            right < arr@.len(),
            g ==> forall|j: int|
                0 <= j < left ==> #[trigger] cmp_of(arr@[j], *value) == Some(Ordering::Less),
            g ==> forall|j: int|
                right < j < arr@.len() ==> #[trigger] cmp_of(arr@[j], *value) == Some(
                    Ordering::Greater,
                ),
        decreases right + 1 - left,
    {
        let mid = (left + right) / 2;
        let candidate: &T = &arr[mid];
        if candidate.eq(value) {
            return Some(mid);
        }
        if candidate.gt(value) {
            proof {
                if g {
                    assert forall|j: int| mid <= j < arr@.len() implies #[trigger] cmp_of(
                        arr@[j],
                        *value,
                    ) == Some(Ordering::Greater) by {
                        if j > mid {
                            assert(le_spec(arr@[mid as int], arr@[j]));
                            if le_spec(arr@[j], *value) {
                                assert(le_spec(arr@[mid as int], *value));
                            }
                        }
                    }
                }
            }
            if mid == 0 {
                return None;
            }
            right = mid - 1;
        } else {
            proof {
                if g {
                    assert forall|j: int| 0 <= j <= mid implies #[trigger] cmp_of(
                        arr@[j],
                        *value,
                    ) == Some(Ordering::Less) by {
                        if j < mid {
                            assert(le_spec(arr@[j], arr@[mid as int]));
                        }
                    }
                }
            }
            left = mid + 1;
        }
    }
    None
}

} // verus!
