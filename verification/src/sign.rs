//! The even-odd rule by which a sign decides whether the area at a point is
//! cut: the parity of the outline crossings below the point, counted over all
//! the sign's shapes.
use vstd::prelude::*;

verus! {

/// The sum of the first `n` counts.
pub open spec fn count_sum(counts: Seq<usize>, n: int) -> int
    decreases n,
{
    if n <= 0 {
        0
    } else {
        count_sum(counts, n - 1) + counts[n - 1]
    }
}

/// Whether `crossings` has the parity that marks an area to cut: odd when
/// cutting on odd counts, even otherwise.
pub open spec fn parity_cuts(crossings: int, do_cut_on_odd: bool) -> bool {
    (crossings % 2 == 1) == do_cut_on_odd
}

proof fn lemma_count_sum_monotonic(counts: Seq<usize>, i: int, j: int)
    requires
        0 <= i <= j <= counts.len(),
    ensures
        count_sum(counts, i) <= count_sum(counts, j),
    decreases j - i,
{
    if i < j {
        lemma_count_sum_monotonic(counts, i, j - 1);
    }
}

/// The crossings below a point over all shapes: the sum of each shape's
/// count.
pub fn y_values_before(per_shape: &Vec<usize>) -> (r: usize)
    requires
        count_sum(per_shape@, per_shape@.len() as int) <= usize::MAX,
    ensures
        r == count_sum(per_shape@, per_shape@.len() as int),
{
    let mut seen: usize = 0;
    let mut i: usize = 0;
    while i < per_shape.len()
        invariant
            i <= per_shape@.len(),
            seen == count_sum(per_shape@, i as int),
            count_sum(per_shape@, per_shape@.len() as int) <= usize::MAX,
        decreases per_shape.len() - i,
    {
        proof {
            lemma_count_sum_monotonic(per_shape@, i + 1, per_shape@.len() as int);
        }
        seen = seen + per_shape[i];
        i = i + 1;
    }
    seen
}

/// One vote on whether the area at a point is cut: 1 when the crossings
/// strictly below it have the cutting parity, or, where crossings at the
/// point's height may count, when the crossings below or at it do; else 0.
pub fn sees_even_odd_lines_before_helper(
    before: usize,
    before_or_equal: usize,
    do_cut_on_odd: bool,
    can_be_equal: bool,
) -> (r: usize)
    ensures
        r == if parity_cuts(before as int, do_cut_on_odd) || (can_be_equal && parity_cuts(
            before_or_equal as int,
            do_cut_on_odd,
        )) {
            1usize
        } else {
            0usize
        },
{
    if ((before % 2 == 1) == do_cut_on_odd) || (can_be_equal && ((before_or_equal % 2 == 1) == do_cut_on_odd)) {
        1
    } else {
        0
    }
}

/// Whether at least two of three votes, taken at a point and just beside it
/// on either side, say the area is cut.
pub fn sees_even_odd_lines_before(at: usize, right: usize, left: usize) -> (r: bool)
    requires
        at + right + left <= usize::MAX,
    ensures
        r == (at + right + left >= 2),
{
    at + right + left >= 2
}

/// Of three votes of 0 or 1, the majority decides: the area is cut exactly
/// when at least two of the three votes say so.
pub proof fn lemma_majority_of_votes(at: usize, right: usize, left: usize)
    requires
        at <= 1,
        right <= 1,
        left <= 1,
    ensures
        (at + right + left >= 2) == ((at == 1 && right == 1) || (at == 1 && left == 1) || (right == 1 && left == 1)),
{
}

} // verus!
