//! Binary searches over sequences ordered by `PartialOrd`.
use vstd::prelude::*;
use vstd::std_specs::cmp::PartialOrdSpec;
use core::cmp::Ordering;

verus! {

/// `a < b` as the type's `PartialOrd` specification defines it.
pub open spec fn spec_is_less<T: PartialOrd>(a: T, b: T) -> bool {
    a.partial_cmp_spec(&b) == Some(Ordering::Less)
}

/// `a <= b` as the type's `PartialOrd` specification defines it.
pub open spec fn spec_is_less_or_equal<T: PartialOrd>(a: T, b: T) -> bool {
    a.partial_cmp_spec(&b) matches Some(Ordering::Less | Ordering::Equal)
}

/// The type's `PartialOrd` follows its specification.
pub open spec fn obeys_order<T: PartialOrd>() -> bool {
    T::obeys_partial_cmp_spec()
}

/// The predicate `p` holds on a prefix of `0..len` and fails on the rest.
pub open spec fn is_prefix_predicate(len: int, p: spec_fn(int) -> bool) -> bool {
    forall|i: int, j: int| 0 <= i <= j < len && #[trigger] p(j) ==> #[trigger] p(i)
}

/// `r` splits `0..len` at a point where `p` changes from true to false:
/// `p` holds just before `r` and fails at `r`.
pub open spec fn is_boundary(len: int, p: spec_fn(int) -> bool, r: int) -> bool {
    &&& 0 <= r <= len
    &&& r > 0 ==> p(r - 1)
    &&& r < len ==> !p(r)
}

/// The number of leading positions of `0..len` on which `p` holds, when `p`
/// holds on a prefix.
pub open spec fn is_prefix_length(len: int, p: spec_fn(int) -> bool, r: int) -> bool {
    &&& 0 <= r <= len
    &&& forall|i: int| 0 <= i < r ==> #[trigger] p(i)
    &&& forall|i: int| r <= i < len ==> !#[trigger] p(i)
}

/// On a prefix predicate, every boundary is the prefix length.
pub proof fn lemma_boundary_of_prefix_predicate(len: int, p: spec_fn(int) -> bool, r: int)
    requires
        is_prefix_predicate(len, p),
        is_boundary(len, p, r),
        r == len ==> (len > 0 ==> p(len - 1)),
    ensures
        is_prefix_length(len, p, r),
{
    assert forall|i: int| 0 <= i < r implies #[trigger] p(i) by {
        assert(p(r - 1));
    }
    assert forall|i: int| r <= i < len implies !#[trigger] p(i) by {
        if p(i) {
            assert(p(r));
        }
    }
}

/// `s[i] < x`, or `s[i] <= x` when `or_equal` is set.
pub open spec fn before_at<T: PartialOrd>(s: Seq<T>, i: int, x: T, or_equal: bool) -> bool {
    if or_equal {
        spec_is_less_or_equal(s[i], x)
    } else {
        spec_is_less(s[i], x)
    }
}

/// Binary search over `min..max` for the first index whose element of `arr`
/// is not before `x` (not less than `x`, or not less than or equal to `x` when
/// `or_equal` is set), assuming the elements before `x` form a prefix.
fn seen_before_helper<T: PartialOrd>(min: usize, max: usize, arr: &Vec<T>, x: &T, or_equal: bool) -> (r: usize)
    requires
        min <= max <= arr.len(),
    ensures
        min <= r <= max,
        obeys_order::<T>() ==> {
            &&& r > min ==> before_at(arr@, r - 1, *x, or_equal)
            &&& r < max ==> !before_at(arr@, r as int, *x, or_equal)
        },
{
    let ghost min0 = min;
    let ghost max0 = max;
    let mut min = min;
    let mut max = max;
    while min < max
        invariant
            min0 <= min <= max <= max0 <= arr.len(),
            obeys_order::<T>() ==> {
                &&& min > min0 ==> before_at(arr@, min - 1, *x, or_equal)
                &&& max < max0 ==> !before_at(arr@, max as int, *x, or_equal)
            },
        decreases max - min,
    {
        let mid = min + (max - min) / 2;
        let is_before = if or_equal {
            arr[mid] <= *x
        } else {
            arr[mid] < *x
        };
        if is_before {
            min = mid + 1;
        } else {
            max = mid;
        }
    }
    min
}

/// Index of the first element of `arr` that is not less than `x`, found by a
/// binary search; the length when the last element is less than `x`.
/// When `arr` is sorted this is the number of elements less than `x`.
pub fn seen_before<T: PartialOrd>(arr: &Vec<T>, x: T) -> (r: usize)
    ensures
        r <= arr.len(),
        obeys_order::<T>() ==> is_boundary(
            arr.len() as int,
            |i: int| before_at(arr@, i, x, false),
            r as int,
        ),
        obeys_order::<T>() && arr.len() > 0 ==> (r == arr.len() <==> (before_at(
            arr@,
            arr.len() - 1,
            x,
            false,
        ))),
        obeys_order::<T>() && is_prefix_predicate(
            arr.len() as int,
            |i: int| before_at(arr@, i, x, false),
        ) ==> is_prefix_length(arr.len() as int, |i: int| before_at(arr@, i, x, false), r as int),
{
    let len = arr.len();
    if len == 0 {
        return 0;
    }
    if arr[len - 1] < x {
        proof {
            let pred = |i: int| before_at(arr@, i, x, false);
            if obeys_order::<T>() && is_prefix_predicate(len as int, pred) {
                lemma_boundary_of_prefix_predicate(len as int, pred, len as int);
            }
        }
        return len;
    }
    let r = seen_before_helper(0, len - 1, arr, &x, false);
    proof {
        let pred = |i: int| before_at(arr@, i, x, false);
        if obeys_order::<T>() {
            assert(is_boundary(len as int, pred, r as int));
            if is_prefix_predicate(len as int, pred) {
                lemma_boundary_of_prefix_predicate(len as int, pred, r as int);
            }
        }
    }
    r
}

/// Index of the first element of `arr` that is not less than or equal to `x`,
/// found by a binary search over all but the last element; the length when the
/// last element is less than `x`. When `arr` is sorted and its last element is
/// not less than `x`, this is the number of elements, among all but the last,
/// that are less than or equal to `x`.
pub fn seen_before_or_equal<T: PartialOrd>(arr: &Vec<T>, x: T) -> (r: usize)
    ensures
        r <= arr.len(),
        obeys_order::<T>() && arr.len() > 0 ==> (r == arr.len() <==> (before_at(
            arr@,
            arr.len() - 1,
            x,
            false,
        ))),
        obeys_order::<T>() && r < arr.len() ==> is_boundary(
            arr.len() - 1,
            |i: int| before_at(arr@, i, x, true),
            r as int,
        ),
        obeys_order::<T>() && r < arr.len() && is_prefix_predicate(
            arr.len() - 1,
            |i: int| before_at(arr@, i, x, true),
        ) ==> is_prefix_length(arr.len() - 1, |i: int| before_at(arr@, i, x, true), r as int),
{
    let len = arr.len();
    if len == 0 {
        return 0;
    }
    if arr[len - 1] < x {
        return len;
    }
    let r = seen_before_helper(0, len - 1, arr, &x, true);
    proof {
        let pred = |i: int| before_at(arr@, i, x, true);
        if obeys_order::<T>() {
            assert(is_boundary(len - 1, pred, r as int));
            if is_prefix_predicate(len - 1, pred) {
                lemma_boundary_of_prefix_predicate(len - 1, pred, r as int);
            }
        }
    }
    r
}

/// Where both searches count (the elements less than `x`, and those less than
/// or equal to `x` among all but the last), the count of `seen_before` is at
/// most that of `seen_before_or_equal`: `r1` is the number of leading
/// elements less than `x`, and `r2` is what `seen_before_or_equal`'s contract
/// gives.
pub proof fn lemma_searches_ordered<T: PartialOrd>(s: Seq<T>, x: T, r1: int, r2: int)
    requires
        s.len() > 0,
        is_prefix_length(s.len() as int, |i: int| before_at(s, i, x, false), r1),
        0 <= r2 <= s.len(),
        r2 == s.len() <==> before_at(s, s.len() - 1, x, false),
        r2 < s.len() ==> is_prefix_length(s.len() - 1, |i: int| before_at(s, i, x, true), r2),
    ensures
        r1 <= r2,
{
    let len = s.len() as int;
    if r2 < len {
        let p = |i: int| before_at(s, i, x, false);
        let q = |i: int| before_at(s, i, x, true);
        assert(!p(len - 1));
        assert(r1 <= len - 1);
        if r2 < r1 {
            assert(p(r2));
            assert(q(r2));
        }
    }
}

/// The type's order follows its specification, and `<` and `<=` chain as an
/// order's do.
pub open spec fn order_transitive<T: PartialOrd>() -> bool {
    &&& obeys_order::<T>()
    &&& forall|a: T, b: T, c: T|
        #![trigger spec_is_less(a, b), spec_is_less_or_equal(b, c)]
        spec_is_less(a, b) && spec_is_less_or_equal(b, c) ==> spec_is_less(a, c)
    &&& forall|a: T, b: T, c: T|
        #![trigger spec_is_less_or_equal(a, b), spec_is_less(b, c)]
        spec_is_less_or_equal(a, b) && spec_is_less(b, c) ==> spec_is_less(a, c)
    &&& forall|a: T, b: T, c: T|
        #![trigger spec_is_less_or_equal(a, b), spec_is_less_or_equal(b, c)]
        spec_is_less_or_equal(a, b) && spec_is_less_or_equal(b, c) ==> spec_is_less_or_equal(a, c)
}

/// `s` is sorted ascending by the type's order.
pub open spec fn is_sorted<T: PartialOrd>(s: Seq<T>) -> bool {
    forall|i: int, j: int| 0 <= i <= j < s.len() ==> spec_is_less_or_equal(#[trigger] s[i], #[trigger] s[j])
}

/// The machine integers' order chains as an order's does.
pub proof fn lemma_u64_order_transitive()
    ensures
        order_transitive::<u64>(),
{
}

/// In a sorted sequence the elements less than `x`, and those less than or
/// equal to `x`, come first, so both searches count them.
pub proof fn lemma_sorted_prefixes<T: PartialOrd>(s: Seq<T>, x: T, len: int)
    requires
        order_transitive::<T>(),
        is_sorted(s),
        0 <= len <= s.len(),
    ensures
        is_prefix_predicate(len, |i: int| before_at(s, i, x, false)),
        is_prefix_predicate(len, |i: int| before_at(s, i, x, true)),
{
    assert forall|i: int, j: int|
        0 <= i <= j < len && #[trigger] before_at(s, j, x, false) implies #[trigger] before_at(s, i, x, false) by {
        assert(spec_is_less_or_equal(s[i], s[j]));
    }
    assert forall|i: int, j: int|
        0 <= i <= j < len && #[trigger] before_at(s, j, x, true) implies #[trigger] before_at(s, i, x, true) by {
        assert(spec_is_less_or_equal(s[i], s[j]));
    }
}

/// The count of `seen_before` grows with `x`: `r1` and `r2` are the numbers of
/// leading elements less than `x1` and less than `x2`.
pub proof fn lemma_seen_before_monotonic<T: PartialOrd>(s: Seq<T>, x1: T, x2: T, r1: int, r2: int)
    requires
        order_transitive::<T>(),
        spec_is_less_or_equal(x1, x2),
        is_prefix_length(s.len() as int, |i: int| before_at(s, i, x1, false), r1),
        is_prefix_length(s.len() as int, |i: int| before_at(s, i, x2, false), r2),
    ensures
        r1 <= r2,
{
    if r2 < r1 {
        let p1 = |i: int| before_at(s, i, x1, false);
        let p2 = |i: int| before_at(s, i, x2, false);
        assert(p1(r2));
        assert(!p2(r2));
        assert(spec_is_less(s[r2], x1));
    }
}

/// The count of `seen_before_or_equal` grows with `x`: `r1` and `r2` are what
/// its contract gives for `x1` and `x2`.
pub proof fn lemma_seen_before_or_equal_monotonic<T: PartialOrd>(s: Seq<T>, x1: T, x2: T, r1: int, r2: int)
    requires
        order_transitive::<T>(),
        spec_is_less_or_equal(x1, x2),
        s.len() > 0,
        0 <= r1 <= s.len(),
        0 <= r2 <= s.len(),
        r1 == s.len() <==> before_at(s, s.len() - 1, x1, false),
        r2 == s.len() <==> before_at(s, s.len() - 1, x2, false),
        r1 < s.len() ==> is_prefix_length(s.len() - 1, |i: int| before_at(s, i, x1, true), r1),
        r2 < s.len() ==> is_prefix_length(s.len() - 1, |i: int| before_at(s, i, x2, true), r2),
    ensures
        r1 <= r2,
{
    let len = s.len() as int;
    if r2 < len {
        if r1 == len {
            assert(spec_is_less(s[len - 1], x1));
            assert(!spec_is_less(s[len - 1], x2));
        } else if r2 < r1 {
            let q1 = |i: int| before_at(s, i, x1, true);
            let q2 = |i: int| before_at(s, i, x2, true);
            assert(q1(r2));
            assert(!q2(r2));
            assert(spec_is_less_or_equal(s[r2], x1));
        }
    }
}

} // verus!
