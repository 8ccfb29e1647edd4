//! Construction: in-place median partitioning that establishes the kd-tree
//! ordering ([`kd_ordered_range`]) over a vector of points.

use vstd::prelude::*;

use crate::{kd_ordered_range, lemma_kd_ordered_congruence, lemma_perm_transfer,
    lemma_subrange_split, next_axis, sized_pts, valid_pt, valid_pts};

verus! {

/// Compares two points by their coordinate at `axis`.
pub(crate) fn cmp_coord(a: &Vec<i64>, b: &Vec<i64>, axis: usize) -> (r: std::cmp::Ordering)
    requires
        axis < a@.len(),
        axis < b@.len(),
    ensures
        r == std::cmp::Ordering::Less <==> a@[axis as int] < b@[axis as int],
        r == std::cmp::Ordering::Greater <==> a@[axis as int] > b@[axis as int],
        r == std::cmp::Ordering::Equal <==> a@[axis as int] == b@[axis as int],
{
    let x = a[axis];
    let y = b[axis];
    if x < y {
        std::cmp::Ordering::Less
    } else if x > y {
        std::cmp::Ordering::Greater
    } else {
        std::cmp::Ordering::Equal
    }
}

/// Relies on `pdqselect::select_by`: it reorders the given slice in place (a
/// permutation) and moves the element of the given rank into its sorted
/// position under the comparator, with all smaller-or-equal elements before
/// it and all greater-or-equal elements after it. Here the rank is the middle
/// of the subrange `[lo, hi)` and the order is the coordinate order at
/// `axis`.
#[verifier::external_body]
fn select_median(items: &mut Vec<Vec<i64>>, lo: usize, hi: usize, axis: usize)
    requires
        lo < hi,
        hi <= old(items)@.len(),
        forall|i: int| lo <= i < hi ==> axis < #[trigger] old(items)@[i]@.len(),
    ensures
        final(items)@.len() == old(items)@.len(),
        forall|i: int|
            0 <= i < old(items)@.len() && !(lo <= i < hi)
                ==> #[trigger] final(items)@[i] == old(items)@[i],
        final(items)@.subrange(lo as int, hi as int).to_multiset()
            == old(items)@.subrange(lo as int, hi as int).to_multiset(),
        forall|i: int|
            lo <= i < lo + (hi - lo) / 2
                ==> #[trigger] final(items)@[i]@[axis as int]
                    <= final(items)@[lo + (hi - lo) / 2]@[axis as int],
        forall|i: int|
            lo + (hi - lo) / 2 < i < hi
                ==> #[trigger] final(items)@[i]@[axis as int]
                    >= final(items)@[lo + (hi - lo) / 2]@[axis as int],
{
    let mid = (hi - lo) / 2;
    pdqselect::select_by(&mut items[lo..hi], mid, &mut |a: &Vec<i64>, b: &Vec<i64>| cmp_coord(
        a,
        b,
        axis,
    ));
}

/// Recursively partitions the subrange `[lo, hi)` at the rotating axis:
/// selects the median into the middle, then recurses into both halves at the
/// next axis.
fn sort_range(items: &mut Vec<Vec<i64>>, lo: usize, hi: usize, axis: usize, dim: usize)
    requires
        lo <= hi,
        hi <= old(items)@.len(),
        1 <= dim,
        axis < dim,
        sized_pts(old(items)@, dim as int),
    ensures
        final(items)@.len() == old(items)@.len(),
        forall|i: int|
            0 <= i < old(items)@.len() && !(lo <= i < hi)
                ==> #[trigger] final(items)@[i] == old(items)@[i],
        final(items)@.subrange(lo as int, hi as int).to_multiset()
            == old(items)@.subrange(lo as int, hi as int).to_multiset(),
        sized_pts(final(items)@, dim as int),
        kd_ordered_range(final(items)@, lo as int, hi as int, axis as int, dim as int),
    decreases hi - lo,
{
    if hi - lo >= 2 {
        let ghost s0 = items@;
        select_median(items, lo, hi, axis);
        let ghost s1 = items@;
        let mid = lo + (hi - lo) / 2;
        proof {
            lemma_perm_transfer(
                s0.subrange(lo as int, hi as int),
                s1.subrange(lo as int, hi as int),
                |x: Vec<i64>| x@.len() == dim,
            );
            assert forall|i: int| 0 <= i < s1.len() implies #[trigger] s1[i]@.len() == dim by {
                if lo <= i < hi {
                    assert(s1.subrange(lo as int, hi as int)[i - lo] == s1[i]);
                }
            }
        }
        let next = if axis + 1 == dim {
            0
        } else {
            axis + 1
        };
        sort_range(items, lo, mid, next, dim);
        let ghost s2 = items@;
        sort_range(items, mid + 1, hi, next, dim);
        let ghost s3 = items@;
        proof {
            let l = lo as int;
            let h = hi as int;
            let m = mid as int;
            let c = s1[m]@[axis as int];
            assert(s2[m] == s1[m]);
            assert(s3[m] == s2[m]);
            // The left half after both recursive calls is a permutation of
            // the left half right after selection, and likewise on the right.
            assert(s3.subrange(l, m) =~= s2.subrange(l, m));
            assert(s2.subrange(m + 1, h) =~= s1.subrange(m + 1, h));
            assert(s3.subrange(l, m).to_multiset() == s1.subrange(l, m).to_multiset());
            assert(s3.subrange(m + 1, h).to_multiset() == s1.subrange(m + 1, h).to_multiset());
            // Multiset preservation over the whole subrange.
            lemma_subrange_split(s1, l, m, h);
            lemma_subrange_split(s3, l, m, h);
            assert(s3.subrange(l, h).to_multiset() == s0.subrange(l, h).to_multiset());
            // The median bounds survive the permutation of each half.
            lemma_perm_transfer(
                s1.subrange(l, m),
                s3.subrange(l, m),
                |x: Vec<i64>| x@[axis as int] <= c,
            );
            assert forall|i: int| l <= i < m implies
                #[trigger] s3[i]@[axis as int] <= s3[m]@[axis as int] by {
                assert(s3.subrange(l, m)[i - l] == s3[i]);
            }
            lemma_perm_transfer(
                s1.subrange(m + 1, h),
                s3.subrange(m + 1, h),
                |x: Vec<i64>| x@[axis as int] >= c,
            );
            assert forall|i: int| m < i < h implies
                #[trigger] s3[i]@[axis as int] >= s3[m]@[axis as int] by {
                assert(s3.subrange(m + 1, h)[i - (m + 1)] == s3[i]);
            }
            // Both halves keep their recursive ordering.
            lemma_kd_ordered_congruence(
                s2,
                s3,
                l,
                m,
                next_axis(axis as int, dim as int),
                dim as int,
            );
            assert(kd_ordered_range(s3, l, h, axis as int, dim as int));
        }
    }
}

/// Sorts `items` in place into kd-tree order: afterwards the vector holds
/// the same multiset of points and satisfies [`kd_ordered_range`] over its
/// full extent, starting at axis `0`.
pub fn kd_sort_by(items: &mut Vec<Vec<i64>>, dim: usize)
    requires
        1 <= dim,
        sized_pts(old(items)@, dim as int),
    ensures
        final(items)@.len() == old(items)@.len(),
        final(items)@.to_multiset() == old(items)@.to_multiset(),
        sized_pts(final(items)@, dim as int),
        valid_pts(old(items)@, dim as int) ==> valid_pts(final(items)@, dim as int),
        kd_ordered_range(final(items)@, 0, final(items)@.len() as int, 0, dim as int),
{
    let ghost s0 = items@;
    let n = items.len();
    sort_range(items, 0, n, 0, dim);
    proof {
        assert(s0.subrange(0, n as int) =~= s0);
        assert(items@.subrange(0, n as int) =~= items@);
        if valid_pts(s0, dim as int) {
            lemma_perm_transfer(s0, items@, |x: Vec<i64>| valid_pt(x@, dim as int));
        }
    }
}

/// Sorts `items` in place into kd-tree order by the natural order of the
/// integer coordinates; equivalent to [`kd_sort_by`].
pub fn kd_sort(items: &mut Vec<Vec<i64>>, dim: usize)
    requires
        1 <= dim,
        sized_pts(old(items)@, dim as int),
    ensures
        final(items)@.len() == old(items)@.len(),
        final(items)@.to_multiset() == old(items)@.to_multiset(),
        sized_pts(final(items)@, dim as int),
        valid_pts(old(items)@, dim as int) ==> valid_pts(final(items)@, dim as int),
        kd_ordered_range(final(items)@, 0, final(items)@.len() as int, 0, dim as int),
{
    kd_sort_by(items, dim);
}

} // verus!
