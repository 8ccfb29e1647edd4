//! Single nearest-neighbor search: branch-and-bound over the implicit tree,
//! pruning a far subtree whenever the splitting plane is already farther away
//! than the best candidate found so far.

use vstd::prelude::*;

use crate::{kd_ordered_range, lemma_outside_dist, lemma_sq_dist_nonneg, lemma_sq_dist_upper,
    sq_dist, valid_pt, valid_pts, EmptyTreeError, ItemAndDistance, COORD_LIMIT, MAX_DIM};

verus! {

/// Computes the squared Euclidean distance between two points of dimension
/// `dim`.
pub fn squared_distance(p: &Vec<i64>, q: &Vec<i64>, dim: usize) -> (d: i64)
    requires
        dim <= MAX_DIM,
        valid_pt(p@, dim as int),
        valid_pt(q@, dim as int),
    ensures
        d == sq_dist(p@, q@, dim as int),
{
    let mut d: i64 = 0;
    let mut a: usize = 0;
    while a < dim
        invariant
            a <= dim,
            dim <= MAX_DIM,
            valid_pt(p@, dim as int),
            valid_pt(q@, dim as int),
            d == sq_dist(p@, q@, a as int),
        decreases dim - a,
    {
        let diff = p[a] - q[a];
        proof {
            lemma_sq_dist_nonneg(p@, q@, a as int);
            lemma_sq_dist_upper(p@, q@, a as int, dim as int);
            assert(0 <= d + diff * diff <= i64::MAX) by (nonlinear_arith)
                requires
                    0 <= d <= (a as int) * (4 * COORD_LIMIT * COORD_LIMIT),
                    a < MAX_DIM,
                    -2 * COORD_LIMIT <= diff <= 2 * COORD_LIMIT,
                    COORD_LIMIT == 1_000_000,
                    MAX_DIM == 1000,
            ;
        }
        d = d + diff * diff;
        a = a + 1;
    }
    d
}

/// Searches the subrange `[lo, hi)` for a point closer to the query than the
/// best candidate so far, updating `best` in place. Stops early once an exact
/// match (squared distance zero) is held, and skips the far half wherever the
/// splitting plane is at least as far away as the current best.
fn nearest_range(
    kdtree: &Vec<Vec<i64>>,
    query: &Vec<i64>,
    dim: usize,
    lo: usize,
    hi: usize,
    axis: usize,
    best: &mut ItemAndDistance,
)
    requires
        lo < hi,
        hi <= kdtree@.len(),
        1 <= dim <= MAX_DIM,
        axis < dim,
        valid_pts(kdtree@, dim as int),
        valid_pt(query@, dim as int),
        kd_ordered_range(kdtree@, lo as int, hi as int, axis as int, dim as int),
        old(best).item < kdtree@.len(),
        old(best).squared_distance == sq_dist(
            kdtree@[old(best).item as int]@,
            query@,
            dim as int,
        ),
    ensures
        final(best).item < kdtree@.len(),
        final(best).squared_distance == sq_dist(
            kdtree@[final(best).item as int]@,
            query@,
            dim as int,
        ),
        final(best).squared_distance <= old(best).squared_distance,
        forall|i: int|
            lo <= i < hi ==> sq_dist(#[trigger] kdtree@[i]@, query@, dim as int)
                >= final(best).squared_distance,
    decreases hi - lo,
{
    if best.squared_distance == 0 {
        // An exact coordinate match cannot be improved on: end the search.
        proof {
            assert forall|i: int| lo <= i < hi implies sq_dist(
                #[trigger] kdtree@[i]@,
                query@,
                dim as int,
            ) >= 0 by {
                lemma_sq_dist_nonneg(kdtree@[i]@, query@, dim as int);
            }
        }
        return ;
    }
    let mid = lo + (hi - lo) / 2;
    let d = squared_distance(&kdtree[mid], query, dim);
    if d < best.squared_distance {
        best.item = mid;
        best.squared_distance = d;
        if d == 0 {
            proof {
                assert forall|i: int| lo <= i < hi implies sq_dist(
                    #[trigger] kdtree@[i]@,
                    query@,
                    dim as int,
                ) >= 0 by {
                    lemma_sq_dist_nonneg(kdtree@[i]@, query@, dim as int);
                }
            }
            return ;
        }
    }
    let c = kdtree[mid][axis];
    let qa = query[axis];
    let next = if axis + 1 == dim {
        0
    } else {
        axis + 1
    };
    if qa < c {
        // The query falls on the left of the splitting plane.
        if lo < mid {
            nearest_range(kdtree, query, dim, lo, mid, next, best);
        }
        if mid + 1 < hi {
            let diff = c - qa;
            proof {
                assert(0 <= diff * diff <= 4 * COORD_LIMIT * COORD_LIMIT) by (nonlinear_arith)
                    requires
                        -2 * COORD_LIMIT <= diff <= 2 * COORD_LIMIT,
                ;
            }
            if diff * diff < best.squared_distance {
                nearest_range(kdtree, query, dim, mid + 1, hi, next, best);
            } else {
                proof {
                    let b = best.squared_distance;
                    assert forall|i: int| mid + 1 <= i < hi implies sq_dist(
                        #[trigger] kdtree@[i]@,
                        query@,
                        dim as int,
                    ) >= b by {
                        lemma_outside_dist(kdtree@[i]@, query@, dim as int, axis as int, c as int);
                    }
                }
            }
        }
    } else {
        // The query falls on the right of (or exactly on) the splitting
        // plane.
        if mid + 1 < hi {
            nearest_range(kdtree, query, dim, mid + 1, hi, next, best);
        }
        if lo < mid {
            let diff = qa - c;
            proof {
                assert(0 <= diff * diff <= 4 * COORD_LIMIT * COORD_LIMIT) by (nonlinear_arith)
                    requires
                        -2 * COORD_LIMIT <= diff <= 2 * COORD_LIMIT,
                ;
            }
            if diff * diff < best.squared_distance {
                nearest_range(kdtree, query, dim, lo, mid, next, best);
            } else {
                proof {
                    let b = best.squared_distance;
                    assert((c - qa) * (c - qa) == diff * diff) by (nonlinear_arith)
                        requires
                            diff == qa - c,
                    ;
                    assert forall|i: int| lo <= i < mid implies sq_dist(
                        #[trigger] kdtree@[i]@,
                        query@,
                        dim as int,
                    ) >= b by {
                        lemma_outside_dist(kdtree@[i]@, query@, dim as int, axis as int, c as int);
                    }
                }
            }
        }
    }
}

/// Returns the point of the tree nearest to `query` (its offset and its
/// squared distance), or [`EmptyTreeError`] exactly when the tree is empty.
/// The tree must be in kd order ([`kd_sort`]). Ties between equally near
/// points may resolve to either candidate.
///
/// [`kd_sort`]: crate::kd_sort
pub fn kd_nearest(kdtree: &Vec<Vec<i64>>, query: &Vec<i64>, dim: usize) -> (r: Result<
    ItemAndDistance,
    EmptyTreeError,
>)
    requires
        1 <= dim <= MAX_DIM,
        valid_pts(kdtree@, dim as int),
        valid_pt(query@, dim as int),
        kd_ordered_range(kdtree@, 0, kdtree@.len() as int, 0, dim as int),
    ensures
        r is Ok <==> kdtree@.len() > 0,
        r matches Ok(n) ==> {
            &&& n.item < kdtree@.len()
            &&& n.squared_distance == sq_dist(kdtree@[n.item as int]@, query@, dim as int)
            &&& forall|i: int|
                0 <= i < kdtree@.len() ==> sq_dist(#[trigger] kdtree@[i]@, query@, dim as int)
                    >= n.squared_distance
        },
{
    let n = kdtree.len();
    if n == 0 {
        return Err(EmptyTreeError);
    }
    let mid = n / 2;
    let d = squared_distance(&kdtree[mid], query, dim);
    let mut best = ItemAndDistance { item: mid, squared_distance: d };
    nearest_range(kdtree, query, dim, 0, n, 0, &mut best);
    Ok(best)
}

} // verus!
