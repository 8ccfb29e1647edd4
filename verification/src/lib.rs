//! A k-dimensional spatial index over integer coordinates.
//!
//! Points are flat vectors of `i64` coordinates of a common runtime
//! dimension. [`kd_sort`] rearranges a vector of points in place so that it
//! simultaneously represents a balanced binary tree and a flat array: for a
//! subrange of length `L` the node sits at offset `L / 2`, its left subtree
//! occupies the offsets before it and its right subtree the offsets after it,
//! with the comparison axis rotating at each level. The query functions
//! ([`kd_nearest`], [`kd_nearests`], [`kd_within_by_cmp`],
//! [`kd_within_radius`]) rely on exactly that ordering to prune their search.
//!
//! All distance arithmetic is squared Euclidean distance, so results stay
//! exact; coordinates are bounded by [`COORD_LIMIT`] and dimensions by
//! [`MAX_DIM`] so that no squared distance can overflow an `i64`.

mod laws;
mod nearest;
mod nearests;
mod sort;
mod within;

pub use laws::{dists_of, is_knearest_result, is_nearest_dist,
    lemma_holds_point_permutation_invariant, lemma_nearest_permutation_invariant,
    lemma_nearests_permutation_invariant, lemma_within_permutation_invariant,
    lemma_within_radius_permutation_invariant, pts_of, same_points};
pub use nearest::{kd_nearest, squared_distance};
pub use nearests::{contains_item, covered, distinct_entries, entries_ok, kd_nearests,
    sorted_entries, worst};
pub use sort::{kd_sort, kd_sort_by};
pub use within::{contains_idx, distinct_idx, in_box, kd_within_by_cmp, kd_within_radius};

use vstd::prelude::*;

verus! {

/// Largest magnitude a coordinate may have.
pub const COORD_LIMIT: i64 = 1_000_000;

/// Largest supported dimension count.
///
/// With coordinates in `[-COORD_LIMIT, COORD_LIMIT]`, a squared distance is at
/// most `MAX_DIM * (2 * COORD_LIMIT)^2 = 4 * 10^15`, well inside `i64`.
pub const MAX_DIM: usize = 1000;

/// Largest radius accepted by [`kd_within_radius`]: its square must fit in
/// an `i64`.
pub const RADIUS_LIMIT: i64 = 3_000_000_000;

/// A query result: the offset of an item in the queried array, paired with
/// its squared distance to the query point.
///
/// The distance is kept squared (never the root) so that it stays exact for
/// integer coordinates.
#[derive(Clone, Copy, Debug, PartialEq, Eq, Structural)]
pub struct ItemAndDistance {
    pub item: usize,
    pub squared_distance: i64,
}

/// The error returned by [`kd_nearest`] when the tree holds no points: a
/// nearest neighbor requires at least one candidate.
#[derive(Clone, Copy, Debug, PartialEq, Eq, Structural)]
pub struct EmptyTreeError;

/// Every point of `s` has exactly `dim` coordinates.
pub open spec fn sized_pts(s: Seq<Vec<i64>>, dim: int) -> bool {
    forall|i: int| 0 <= i < s.len() ==> #[trigger] s[i]@.len() == dim
}

/// A point of dimension `dim` whose coordinates all lie within
/// `[-COORD_LIMIT, COORD_LIMIT]`.
pub open spec fn valid_pt(p: Seq<i64>, dim: int) -> bool {
    &&& p.len() == dim
    &&& forall|a: int| 0 <= a < dim ==> -COORD_LIMIT <= #[trigger] p[a] <= COORD_LIMIT
}

/// Every point of `s` is a valid point of dimension `dim`.
pub open spec fn valid_pts(s: Seq<Vec<i64>>, dim: int) -> bool {
    forall|i: int| 0 <= i < s.len() ==> valid_pt(#[trigger] s[i]@, dim)
}

/// Squared Euclidean distance between `p` and `q` over the first `dim` axes.
pub open spec fn sq_dist(p: Seq<i64>, q: Seq<i64>, dim: int) -> int
    decreases dim,
{
    if dim <= 0 {
        0
    } else {
        sq_dist(p, q, dim - 1) + (p[dim - 1] - q[dim - 1]) * (p[dim - 1] - q[dim - 1])
    }
}

/// The comparison axis of the next tree level: axes rotate `0, 1, ...,
/// dim - 1, 0, ...` with depth.
pub open spec fn next_axis(axis: int, dim: int) -> int {
    if axis + 1 == dim {
        0
    } else {
        axis + 1
    }
}

/// The kd-tree ordering of the subrange `[lo, hi)` of `s` at a given axis:
/// the node at `lo + (hi - lo) / 2` splits the subrange, every item on its
/// left has axis coordinate less than or equal to the node's, every item on
/// its right greater than or equal, and both sides are recursively ordered at
/// the next axis. Equal keys may sit on either side.
pub open spec fn kd_ordered_range(s: Seq<Vec<i64>>, lo: int, hi: int, axis: int, dim: int) -> bool
    decreases hi - lo,
{
    if hi - lo < 2 {
        true
    } else {
        let mid = lo + (hi - lo) / 2;
        &&& forall|i: int| lo <= i < mid ==> #[trigger] s[i]@[axis] <= s[mid]@[axis]
        &&& forall|i: int| mid < i < hi ==> #[trigger] s[i]@[axis] >= s[mid]@[axis]
        &&& kd_ordered_range(s, lo, mid, next_axis(axis, dim), dim)
        &&& kd_ordered_range(s, mid + 1, hi, next_axis(axis, dim), dim)
    }
}

/// If two sequences hold the same multiset of points, a property of every
/// element of one holds of every element of the other.
pub proof fn lemma_perm_transfer(s1: Seq<Vec<i64>>, s2: Seq<Vec<i64>>, p: spec_fn(Vec<i64>) -> bool)
    requires
        s1.to_multiset() == s2.to_multiset(),
        forall|i: int| 0 <= i < s1.len() ==> p(#[trigger] s1[i]),
    ensures
        s1.len() == s2.len(),
        forall|j: int| 0 <= j < s2.len() ==> p(#[trigger] s2[j]),
{
    vstd::seq_lib::to_multiset_len(s1);
    vstd::seq_lib::to_multiset_len(s2);
    assert forall|j: int| 0 <= j < s2.len() implies p(s2[j]) by {
        vstd::seq_lib::to_multiset_contains(s1, s2[j]);
        vstd::seq_lib::to_multiset_contains(s2, s2[j]);
        assert(s2.contains(s2[j]));
        assert(s1.contains(s2[j]));
        let w = choose|w: int| 0 <= w < s1.len() && s1[w] == s2[j];
        assert(p(s1[w]));
    }
}

/// The multiset of a subrange splits at an interior index into the part
/// before, the element there, and the part after.
pub proof fn lemma_subrange_split(s: Seq<Vec<i64>>, lo: int, mid: int, hi: int)
    requires
        0 <= lo <= mid < hi <= s.len(),
    ensures
        s.subrange(lo, hi).to_multiset() == s.subrange(lo, mid).to_multiset().add(
            seq![s[mid]].to_multiset(),
        ).add(s.subrange(mid + 1, hi).to_multiset()),
{
    let left = s.subrange(lo, mid);
    let node = seq![s[mid]];
    let right = s.subrange(mid + 1, hi);
    assert(s.subrange(lo, hi) =~= left + node + right);
    vstd::seq_lib::lemma_multiset_commutative(left + node, right);
    vstd::seq_lib::lemma_multiset_commutative(left, node);
}

/// The kd-tree ordering of a subrange depends only on the points inside it.
pub proof fn lemma_kd_ordered_congruence(
    s: Seq<Vec<i64>>,
    t: Seq<Vec<i64>>,
    lo: int,
    hi: int,
    axis: int,
    dim: int,
)
    requires
        0 <= lo,
        hi <= s.len(),
        hi <= t.len(),
        forall|i: int| lo <= i < hi ==> #[trigger] s[i] == t[i],
        kd_ordered_range(s, lo, hi, axis, dim),
    ensures
        kd_ordered_range(t, lo, hi, axis, dim),
    decreases hi - lo,
{
    if hi - lo >= 2 {
        let mid = lo + (hi - lo) / 2;
        assert forall|i: int| lo <= i < mid implies #[trigger] t[i]@[axis] <= t[mid]@[axis] by {
            assert(s[i] == t[i]);
            assert(s[mid] == t[mid]);
        }
        assert forall|i: int| mid < i < hi implies #[trigger] t[i]@[axis] >= t[mid]@[axis] by {
            assert(s[i] == t[i]);
            assert(s[mid] == t[mid]);
        }
        lemma_kd_ordered_congruence(s, t, lo, mid, next_axis(axis, dim), dim);
        lemma_kd_ordered_congruence(s, t, mid + 1, hi, next_axis(axis, dim), dim);
    }
}

/// A squared distance is a sum of squares, hence never negative.
pub proof fn lemma_sq_dist_nonneg(p: Seq<i64>, q: Seq<i64>, dim: int)
    ensures
        sq_dist(p, q, dim) >= 0,
    decreases dim,
{
    if dim > 0 {
        lemma_sq_dist_nonneg(p, q, dim - 1);
        let d = p[dim - 1] - q[dim - 1];
        assert(d * d >= 0) by (nonlinear_arith);
    }
}

/// A squared distance is bounded below by any single axis term.
pub proof fn lemma_sq_dist_axis_lower(p: Seq<i64>, q: Seq<i64>, dim: int, axis: int)
    requires
        0 <= axis < dim,
    ensures
        sq_dist(p, q, dim) >= (p[axis] - q[axis]) * (p[axis] - q[axis]),
    decreases dim,
{
    lemma_sq_dist_nonneg(p, q, axis);
    if axis == dim - 1 {
    } else {
        lemma_sq_dist_axis_lower(p, q, dim - 1, axis);
        let d = p[dim - 1] - q[dim - 1];
        assert(d * d >= 0) by (nonlinear_arith);
    }
}

/// A point on the far side of the splitting plane at `c` is at least as far
/// from the query as the plane itself: its squared distance is bounded below
/// by the squared plane distance `(c - q[axis])^2`.
pub proof fn lemma_outside_dist(p: Seq<i64>, q: Seq<i64>, dim: int, axis: int, c: int)
    requires
        0 <= axis < dim,
        (q[axis] <= c <= p[axis]) || (p[axis] <= c <= q[axis]),
    ensures
        sq_dist(p, q, dim) >= (c - q[axis]) * (c - q[axis]),
{
    lemma_sq_dist_axis_lower(p, q, dim, axis);
    let x = p[axis] as int;
    let a = q[axis] as int;
    assert((x - a) * (x - a) >= (c - a) * (c - a)) by (nonlinear_arith)
        requires
            (a <= c <= x) || (x <= c <= a),
    ;
}

/// Between valid points, each axis term is at most `(2 * COORD_LIMIT)^2`, so
/// the squared distance over `dim` axes is at most `dim` times that.
pub proof fn lemma_sq_dist_upper(p: Seq<i64>, q: Seq<i64>, dim: int, bound: int)
    requires
        valid_pt(p, bound),
        valid_pt(q, bound),
        0 <= dim <= bound,
    ensures
        sq_dist(p, q, dim) <= dim * (4 * COORD_LIMIT * COORD_LIMIT),
    decreases dim,
{
    if dim > 0 {
        lemma_sq_dist_upper(p, q, dim - 1, bound);
        let d = p[dim - 1] - q[dim - 1];
        assert(d * d <= 4 * COORD_LIMIT * COORD_LIMIT) by (nonlinear_arith)
            requires
                -2 * COORD_LIMIT <= d <= 2 * COORD_LIMIT,
        ;
        assert((dim - 1) * (4 * COORD_LIMIT * COORD_LIMIT) + 4 * COORD_LIMIT * COORD_LIMIT == dim
            * (4 * COORD_LIMIT * COORD_LIMIT)) by (nonlinear_arith);
    }
}

} // verus!
