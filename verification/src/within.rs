//! Orthogonal range search and radius search: ternary pruning on the node's
//! axis coordinate collects every point inside an axis-aligned box; the
//! radius query filters the enclosing box by exact squared distance.

use vstd::prelude::*;

use crate::nearest::squared_distance;
use crate::{kd_ordered_range, lemma_sq_dist_axis_lower, sized_pts, sq_dist, valid_pt, valid_pts,
    MAX_DIM, RADIUS_LIMIT};

verus! {

/// Every axis coordinate of `p` lies inside the closed interval
/// `[lower[a], upper[a]]` of its axis.
pub open spec fn in_box(p: Seq<i64>, lower: Seq<i64>, upper: Seq<i64>, dim: int) -> bool {
    forall|a: int| 0 <= a < dim ==> lower[a] <= #[trigger] p[a] <= upper[a]
}

/// The sequence of offsets holds `i`.
pub open spec fn contains_idx(r: Seq<usize>, i: int) -> bool {
    exists|j: int| 0 <= j < r.len() && r[j] == i
}

/// No offset occurs twice.
pub open spec fn distinct_idx(r: Seq<usize>) -> bool {
    forall|j1: int, j2: int| 0 <= j1 < j2 < r.len() ==> #[trigger] r[j1] != #[trigger] r[j2]
}

/// Collects into `out` the offsets of all points of `[lo, hi)` that lie in
/// the box, pruning each half that the node's axis coordinate proves empty of
/// matches.
fn within_range(
    kdtree: &Vec<Vec<i64>>,
    lower: &Vec<i64>,
    upper: &Vec<i64>,
    dim: usize,
    lo: usize,
    hi: usize,
    axis: usize,
    out: &mut Vec<usize>,
)
    requires
        lo <= hi,
        hi <= kdtree@.len(),
        1 <= dim,
        axis < dim,
        sized_pts(kdtree@, dim as int),
        lower@.len() == dim,
        upper@.len() == dim,
        kd_ordered_range(kdtree@, lo as int, hi as int, axis as int, dim as int),
        forall|j: int|
            0 <= j < old(out)@.len() ==> #[trigger] old(out)@[j] < kdtree@.len() && in_box(
                kdtree@[old(out)@[j] as int]@,
                lower@,
                upper@,
                dim as int,
            ) && !(lo <= old(out)@[j] < hi),
        distinct_idx(old(out)@),
    ensures
        final(out)@.len() >= old(out)@.len(),
        forall|j: int| 0 <= j < old(out)@.len() ==> #[trigger] final(out)@[j] == old(out)@[j],
        forall|j: int|
            old(out)@.len() <= j < final(out)@.len() ==> lo <= #[trigger] final(out)@[j] < hi,
        forall|j: int|
            0 <= j < final(out)@.len() ==> #[trigger] final(out)@[j] < kdtree@.len() && in_box(
                kdtree@[final(out)@[j] as int]@,
                lower@,
                upper@,
                dim as int,
            ),
        distinct_idx(final(out)@),
        forall|i: int|
            lo <= i < hi && in_box(#[trigger] kdtree@[i]@, lower@, upper@, dim as int)
                ==> contains_idx(final(out)@, i),
    decreases hi - lo,
{
    if lo == hi {
        return ;
    }
    let mid = lo + (hi - lo) / 2;
    let c = kdtree[mid][axis];
    let next = if axis + 1 == dim {
        0
    } else {
        axis + 1
    };
    if c < lower[axis] {
        // The node and its whole left half sit below the interval on this
        // axis; only the right half can hold matches.
        proof {
            assert forall|i: int|
                lo <= i <= mid implies !in_box(kdtree@[i]@, lower@, upper@, dim as int) by {
                assert(kdtree@[i]@[axis as int] <= c);
            }
        }
        if mid + 1 < hi {
            within_range(kdtree, lower, upper, dim, mid + 1, hi, next, out);
        }
    } else if c > upper[axis] {
        // Symmetric: only the left half can hold matches.
        proof {
            assert forall|i: int|
                mid <= i < hi implies !in_box(kdtree@[i]@, lower@, upper@, dim as int) by {
                assert(kdtree@[i]@[axis as int] >= c);
            }
        }
        within_range(kdtree, lower, upper, dim, lo, mid, next, out);
    } else {
        // The node is inside the slab of this axis: test it on every axis,
        // and both halves can still hold matches.
        let mut inside = true;
        let mut a: usize = 0;
        while a < dim
            invariant
                a <= dim,
                mid < kdtree@.len(),
                sized_pts(kdtree@, dim as int),
                lower@.len() == dim,
                upper@.len() == dim,
                inside <==> (forall|a2: int|
                    0 <= a2 < a ==> lower@[a2] <= #[trigger] kdtree@[mid as int]@[a2]
                        <= upper@[a2]),
            decreases dim - a,
        {
            let coord = kdtree[mid][a];
            if coord < lower[a] || coord > upper[a] {
                inside = false;
            }
            a = a + 1;
        }
        if inside {
            out.push(mid);
        }
        let ghost out1 = out@;
        if lo < mid {
            within_range(kdtree, lower, upper, dim, lo, mid, next, out);
        }
        let ghost out2 = out@;
        if mid + 1 < hi {
            within_range(kdtree, lower, upper, dim, mid + 1, hi, next, out);
        }
        proof {
            assert forall|i: int|
                lo <= i < hi && in_box(#[trigger] kdtree@[i]@, lower@, upper@, dim as int)
                    implies contains_idx(out@, i) by {
                if i == mid {
                    assert(out1[out1.len() - 1] == mid);
                    assert(out@[out1.len() - 1] == mid);
                } else if i < mid {
                    assert(contains_idx(out2, i));
                    let j = choose|j: int| 0 <= j < out2.len() && out2[j] == i;
                    assert(out@[j] == i);
                }
            }
        }
    }
}

/// Returns the offsets of exactly those points whose every axis coordinate
/// lies within `[lower[a], upper[a]]`, in some order without repetition. The
/// tree must be in kd order ([`kd_sort`]), and no interval may be inverted.
///
/// [`kd_sort`]: crate::kd_sort
pub fn kd_within_by_cmp(
    kdtree: &Vec<Vec<i64>>,
    lower: &Vec<i64>,
    upper: &Vec<i64>,
    dim: usize,
) -> (r: Vec<usize>)
    requires
        1 <= dim,
        sized_pts(kdtree@, dim as int),
        lower@.len() == dim,
        upper@.len() == dim,
        forall|a: int| 0 <= a < dim ==> #[trigger] lower@[a] <= upper@[a],
        kd_ordered_range(kdtree@, 0, kdtree@.len() as int, 0, dim as int),
    ensures
        forall|j: int|
            0 <= j < r@.len() ==> #[trigger] r@[j] < kdtree@.len() && in_box(
                kdtree@[r@[j] as int]@,
                lower@,
                upper@,
                dim as int,
            ),
        forall|i: int|
            0 <= i < kdtree@.len() && in_box(#[trigger] kdtree@[i]@, lower@, upper@, dim as int)
                ==> contains_idx(r@, i),
        distinct_idx(r@),
{
    let mut out: Vec<usize> = Vec::new();
    let n = kdtree.len();
    within_range(kdtree, lower, upper, dim, 0, n, 0, &mut out);
    out
}

/// A point whose squared distance to `q` is below `radius^2` lies inside the
/// axis-aligned box that spans `radius` on each side of `q`.
proof fn lemma_ball_in_box(
    p: Seq<i64>,
    q: Seq<i64>,
    dim: int,
    radius: int,
    lower: Seq<i64>,
    upper: Seq<i64>,
)
    requires
        0 <= radius,
        sq_dist(p, q, dim) < radius * radius,
        forall|a: int| 0 <= a < dim ==> #[trigger] lower[a] == q[a] - radius,
        forall|a: int| 0 <= a < dim ==> #[trigger] upper[a] == q[a] + radius,
    ensures
        in_box(p, lower, upper, dim),
{
    assert forall|a: int| 0 <= a < dim implies lower[a] <= #[trigger] p[a] <= upper[a] by {
        lemma_sq_dist_axis_lower(p, q, dim, a);
        let x = p[a] - q[a];
        assert(-radius <= x <= radius) by (nonlinear_arith)
            requires
                x * x < radius * radius,
                0 <= radius,
        ;
    }
}

/// Returns the offsets of exactly those points whose squared distance to
/// `query` is strictly below `radius^2`, in some order without repetition:
/// the candidates inside the enclosing box, filtered by one exact distance
/// test each. The tree must be in kd order ([`kd_sort`]).
///
/// [`kd_sort`]: crate::kd_sort
pub fn kd_within_radius(kdtree: &Vec<Vec<i64>>, query: &Vec<i64>, radius: i64, dim: usize) -> (r:
    Vec<usize>)
    requires
        1 <= dim <= MAX_DIM,
        valid_pts(kdtree@, dim as int),
        valid_pt(query@, dim as int),
        0 <= radius <= RADIUS_LIMIT,
        kd_ordered_range(kdtree@, 0, kdtree@.len() as int, 0, dim as int),
    ensures
        forall|j: int|
            0 <= j < r@.len() ==> #[trigger] r@[j] < kdtree@.len() && sq_dist(
                kdtree@[r@[j] as int]@,
                query@,
                dim as int,
            ) < radius * radius,
        forall|i: int|
            0 <= i < kdtree@.len() && sq_dist(#[trigger] kdtree@[i]@, query@, dim as int) < radius
                * radius ==> contains_idx(r@, i),
        distinct_idx(r@),
{
    // The enclosing axis-aligned box of the ball.
    let mut lower: Vec<i64> = Vec::new();
    let mut upper: Vec<i64> = Vec::new();
    let mut a: usize = 0;
    while a < dim
        invariant
            a <= dim,
            dim <= MAX_DIM,
            valid_pt(query@, dim as int),
            0 <= radius <= RADIUS_LIMIT,
            lower@.len() == a,
            upper@.len() == a,
            forall|k: int| 0 <= k < a ==> #[trigger] lower@[k] == query@[k] - radius,
            forall|k: int| 0 <= k < a ==> #[trigger] upper@[k] == query@[k] + radius,
        decreases dim - a,
    {
        lower.push(query[a] - radius);
        upper.push(query[a] + radius);
        a = a + 1;
    }
    let candidates = kd_within_by_cmp(kdtree, &lower, &upper, dim);
    proof {
        assert(0 <= radius * radius <= i64::MAX) by (nonlinear_arith)
            requires
                0 <= radius <= RADIUS_LIMIT,
                RADIUS_LIMIT == 3_000_000_000,
        ;
    }
    let rr = radius * radius;
    let n_c = candidates.len();
    let mut out: Vec<usize> = Vec::new();
    let mut j: usize = 0;
    while j < n_c
        invariant
            j <= n_c,
            n_c == candidates@.len(),
            rr == radius * radius,
            1 <= dim <= MAX_DIM,
            valid_pts(kdtree@, dim as int),
            valid_pt(query@, dim as int),
            forall|m: int| 0 <= m < n_c ==> #[trigger] candidates@[m] < kdtree@.len(),
            distinct_idx(candidates@),
            forall|m: int|
                0 <= m < out@.len() ==> #[trigger] out@[m] < kdtree@.len() && sq_dist(
                    kdtree@[out@[m] as int]@,
                    query@,
                    dim as int,
                ) < rr,
            forall|m: int|
                0 <= m < out@.len() ==> exists|m2: int|
                    0 <= m2 < j && candidates@[m2] == #[trigger] out@[m],
            distinct_idx(out@),
            forall|m: int|
                0 <= m < j && sq_dist(kdtree@[#[trigger] candidates@[m] as int]@, query@, dim as int)
                    < rr ==> contains_idx(out@, candidates@[m] as int),
        decreases n_c - j,
    {
        let i = candidates[j];
        let d = squared_distance(&kdtree[i], query, dim);
        if d < rr {
            proof {
                assert forall|m: int| 0 <= m < out@.len() implies #[trigger] out@[m] != i by {
                    let m2 = choose|m2: int| 0 <= m2 < j && candidates@[m2] == out@[m];
                    assert(candidates@[m2] != candidates@[j as int]);
                }
            }
            let ghost out_before = out@;
            out.push(i);
            proof {
                assert(out@[out@.len() - 1] == i);
                assert forall|m: int|
                    0 <= m < j + 1 && sq_dist(
                        kdtree@[#[trigger] candidates@[m] as int]@,
                        query@,
                        dim as int,
                    ) < rr implies contains_idx(out@, candidates@[m] as int) by {
                    if m < j {
                        let w = choose|w: int|
                            0 <= w < out_before.len() && out_before[w] == candidates@[m];
                        assert(out@[w] == candidates@[m]);
                    }
                }
            }
        }
        j = j + 1;
    }
    proof {
        assert forall|i: int|
            0 <= i < kdtree@.len() && sq_dist(#[trigger] kdtree@[i]@, query@, dim as int) < radius
                * radius implies contains_idx(out@, i) by {
            lemma_ball_in_box(kdtree@[i]@, query@, dim as int, radius as int, lower@, upper@);
            assert(contains_idx(candidates@, i));
            let m = choose|m: int| 0 <= m < candidates@.len() && candidates@[m] == i;
            assert(sq_dist(kdtree@[candidates@[m] as int]@, query@, dim as int) < rr);
        }
    }
    out
}

} // verus!
