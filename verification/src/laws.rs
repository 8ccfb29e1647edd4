//! Permutation laws: what the queries answer depends only on the multiset of
//! points that a tree was built from, never on the order they were supplied
//! in. Two trees built from permutations of one another therefore answer
//! every query with the same distances and the same point sets; only the
//! choice among exactly tied candidates may differ.

use vstd::prelude::*;

use crate::within::in_box;
use crate::{covered, distinct_entries, entries_ok, sorted_entries, sq_dist, ItemAndDistance};

verus! {

/// The points of `s`, as plain coordinate sequences.
pub open spec fn pts_of(s: Seq<Vec<i64>>) -> Seq<Seq<i64>> {
    Seq::new(s.len(), |i: int| s[i]@)
}

/// Two point sequences hold the same multiset of points.
pub open spec fn same_points(s1: Seq<Vec<i64>>, s2: Seq<Vec<i64>>) -> bool {
    pts_of(s1).to_multiset() == pts_of(s2).to_multiset()
}

/// `d` is the least squared distance from `q` to any point of `s`: attained
/// by some point, and a lower bound for all. This is exactly what
/// [`kd_nearest`] promises of the distance it returns.
///
/// [`kd_nearest`]: crate::kd_nearest
pub open spec fn is_nearest_dist(s: Seq<Vec<i64>>, q: Seq<i64>, dim: int, d: int) -> bool {
    &&& exists|i: int| 0 <= i < s.len() && sq_dist(#[trigger] s[i]@, q, dim) == d
    &&& forall|i: int| 0 <= i < s.len() ==> sq_dist(#[trigger] s[i]@, q, dim) >= d
}

/// A property of every point of `s1` is a property of every point of `s2`,
/// whenever the two hold the same multiset of points.
proof fn lemma_same_points_transfer(s1: Seq<Vec<i64>>, s2: Seq<Vec<i64>>, p: spec_fn(Seq<i64>) -> bool)
    requires
        same_points(s1, s2),
        forall|i: int| 0 <= i < s1.len() ==> p(#[trigger] s1[i]@),
    ensures
        s1.len() == s2.len(),
        forall|i: int| 0 <= i < s2.len() ==> p(#[trigger] s2[i]@),
{
    vstd::seq_lib::to_multiset_len(pts_of(s1));
    vstd::seq_lib::to_multiset_len(pts_of(s2));
    assert forall|i: int| 0 <= i < s2.len() implies p(s2[i]@) by {
        vstd::seq_lib::to_multiset_contains(pts_of(s2), s2[i]@);
        vstd::seq_lib::to_multiset_contains(pts_of(s1), s2[i]@);
        assert(pts_of(s2)[i] == s2[i]@);
        assert(pts_of(s2).contains(s2[i]@));
        let w = choose|w: int| 0 <= w < pts_of(s1).len() && pts_of(s1)[w] == s2[i]@;
        assert(p(s1[w]@));
    }
}

/// A sequence holds a given point if and only if any permutation of it does.
pub proof fn lemma_holds_point_permutation_invariant(
    s1: Seq<Vec<i64>>,
    s2: Seq<Vec<i64>>,
    p: Seq<i64>,
)
    requires
        same_points(s1, s2),
    ensures
        (exists|i: int| 0 <= i < s1.len() && #[trigger] s1[i]@ == p) <==> (exists|i: int|
            0 <= i < s2.len() && #[trigger] s2[i]@ == p),
{
    vstd::seq_lib::to_multiset_contains(pts_of(s1), p);
    vstd::seq_lib::to_multiset_contains(pts_of(s2), p);
    if exists|i: int| 0 <= i < s1.len() && #[trigger] s1[i]@ == p {
        let w = choose|w: int| 0 <= w < s1.len() && #[trigger] s1[w]@ == p;
        assert(pts_of(s1)[w] == p);
        assert(pts_of(s1).contains(p));
        let v = choose|v: int| 0 <= v < pts_of(s2).len() && pts_of(s2)[v] == p;
        assert(s2[v]@ == p);
    }
    if exists|i: int| 0 <= i < s2.len() && #[trigger] s2[i]@ == p {
        let w = choose|w: int| 0 <= w < s2.len() && #[trigger] s2[w]@ == p;
        assert(pts_of(s2)[w] == p);
        assert(pts_of(s2).contains(p));
        let v = choose|v: int| 0 <= v < pts_of(s1).len() && pts_of(s1)[v] == p;
        assert(s1[v]@ == p);
    }
}

/// The nearest squared distance to a query is the same over any two
/// sequences holding the same multiset of points: rebuilding a tree from a
/// permutation of its points changes neither the distance [`kd_nearest`]
/// returns nor the minimum it is measured against. Only which of several
/// exactly tied points is named may differ.
///
/// [`kd_nearest`]: crate::kd_nearest
pub proof fn lemma_nearest_permutation_invariant(
    s1: Seq<Vec<i64>>,
    s2: Seq<Vec<i64>>,
    q: Seq<i64>,
    dim: int,
    d: int,
)
    requires
        same_points(s1, s2),
    ensures
        is_nearest_dist(s1, q, dim, d) <==> is_nearest_dist(s2, q, dim, d),
{
    vstd::seq_lib::to_multiset_len(pts_of(s1));
    vstd::seq_lib::to_multiset_len(pts_of(s2));
    if is_nearest_dist(s1, q, dim, d) {
        lemma_same_points_transfer(s1, s2, |p: Seq<i64>| sq_dist(p, q, dim) >= d);
        let w = choose|w: int| 0 <= w < s1.len() && sq_dist(#[trigger] s1[w]@, q, dim) == d;
        lemma_holds_point_permutation_invariant(s1, s2, s1[w]@);
        let v = choose|v: int| 0 <= v < s2.len() && #[trigger] s2[v]@ == s1[w]@;
        assert(sq_dist(s2[v]@, q, dim) == d);
    }
    if is_nearest_dist(s2, q, dim, d) {
        lemma_same_points_transfer(s2, s1, |p: Seq<i64>| sq_dist(p, q, dim) >= d);
        let w = choose|w: int| 0 <= w < s2.len() && sq_dist(#[trigger] s2[w]@, q, dim) == d;
        lemma_holds_point_permutation_invariant(s1, s2, s2[w]@);
        let v = choose|v: int| 0 <= v < s1.len() && #[trigger] s1[v]@ == s2[w]@;
        assert(sq_dist(s1[v]@, q, dim) == d);
    }
}

/// The squared distances of a k-nearest result, in their returned order.
pub open spec fn dists_of(r: Seq<ItemAndDistance>) -> Seq<int> {
    Seq::new(r.len(), |j: int| r[j].squared_distance as int)
}

/// Everything [`kd_nearests`] promises of a result `r` over the points `s`,
/// in one bundle: the right length, ascending order, pairwise-distinct true
/// entries, and no point of the tree both closer than the worst entry and
/// left out.
///
/// [`kd_nearests`]: crate::kd_nearests
pub open spec fn is_knearest_result(
    s: Seq<Vec<i64>>,
    q: Seq<i64>,
    dim: int,
    num: int,
    r: Seq<ItemAndDistance>,
) -> bool {
    &&& r.len() == vstd::math::min(num, s.len() as int)
    &&& sorted_entries(r)
    &&& distinct_entries(r)
    &&& entries_ok(r, s, q, dim)
    &&& num > 0 ==> forall|i: int| 0 <= i < s.len() ==> #[trigger] covered(r, s, q, dim, num, i)
}

/// How many points of `s` lie strictly closer to `q` than `bound`.
spec fn count_close(s: Seq<Vec<i64>>, q: Seq<i64>, dim: int, bound: int) -> int
    decreases s.len(),
{
    if s.len() == 0 {
        0
    } else {
        count_close(s.drop_last(), q, dim, bound) + if sq_dist(s.last()@, q, dim) < bound {
            1int
        } else {
            0int
        }
    }
}

/// The offsets of the points of `s` that lie strictly closer to `q` than
/// `bound`.
spec fn close_set(s: Seq<Vec<i64>>, q: Seq<i64>, dim: int, bound: int) -> Set<int> {
    Set::new(|i: int| 0 <= i < s.len() && sq_dist(s[i]@, q, dim) < bound)
}

/// Removing one point removes exactly its own contribution to the count.
proof fn lemma_count_close_remove(s: Seq<Vec<i64>>, q: Seq<i64>, dim: int, bound: int, i: int)
    requires
        0 <= i < s.len(),
    ensures
        count_close(s.remove(i), q, dim, bound) == count_close(s, q, dim, bound) - (if sq_dist(
            s[i]@,
            q,
            dim,
        ) < bound {
            1int
        } else {
            0int
        }),
    decreases s.len(),
{
    if i == s.len() - 1 {
        assert(s.remove(i) =~= s.drop_last());
    } else {
        s.remove_ensures(i);
        assert(s.remove(i).drop_last() =~= s.drop_last().remove(i));
        assert(s.remove(i).last() == s.last());
        lemma_count_close_remove(s.drop_last(), q, dim, bound, i);
    }
}

/// The number of points closer than a bound depends only on the multiset of
/// points.
proof fn lemma_count_close_perm(s1: Seq<Vec<i64>>, s2: Seq<Vec<i64>>, q: Seq<i64>, dim: int, bound: int)
    requires
        same_points(s1, s2),
    ensures
        count_close(s1, q, dim, bound) == count_close(s2, q, dim, bound),
    decreases s1.len(),
{
    vstd::seq_lib::to_multiset_len(pts_of(s1));
    vstd::seq_lib::to_multiset_len(pts_of(s2));
    if s1.len() == 0 {
    } else {
        let n1 = s1.len() - 1;
        let p = s1[n1 as int]@;
        vstd::seq_lib::to_multiset_contains(pts_of(s1), p);
        vstd::seq_lib::to_multiset_contains(pts_of(s2), p);
        assert(pts_of(s1)[n1 as int] == p);
        assert(pts_of(s1).contains(p));
        let w = choose|w: int| 0 <= w < pts_of(s2).len() && pts_of(s2)[w] == p;
        vstd::seq_lib::to_multiset_remove(pts_of(s1), n1 as int);
        vstd::seq_lib::to_multiset_remove(pts_of(s2), w);
        pts_of(s2).remove_ensures(w);
        s2.remove_ensures(w);
        assert(pts_of(s1.drop_last()) =~= pts_of(s1).remove(n1 as int));
        assert(pts_of(s2.remove(w)) =~= pts_of(s2).remove(w));
        assert(same_points(s1.drop_last(), s2.remove(w)));
        lemma_count_close_perm(s1.drop_last(), s2.remove(w), q, dim, bound);
        lemma_count_close_remove(s2, q, dim, bound, w);
        assert(s2[w]@ == p);
    }
}

/// The recursive count agrees with the cardinality of the offset set.
proof fn lemma_count_close_is_card(s: Seq<Vec<i64>>, q: Seq<i64>, dim: int, bound: int)
    ensures
        close_set(s, q, dim, bound).finite(),
        close_set(s, q, dim, bound).len() == count_close(s, q, dim, bound),
    decreases s.len(),
{
    broadcast use vstd::set::group_set_axioms;

    if s.len() == 0 {
        assert(close_set(s, q, dim, bound) =~= Set::empty());
    } else {
        let n1 = (s.len() - 1) as int;
        lemma_count_close_is_card(s.drop_last(), q, dim, bound);
        if sq_dist(s[n1]@, q, dim) < bound {
            assert(close_set(s, q, dim, bound) =~= close_set(s.drop_last(), q, dim, bound).insert(
                n1,
            ));
            assert(!close_set(s.drop_last(), q, dim, bound).contains(n1));
        } else {
            assert(close_set(s, q, dim, bound) =~= close_set(s.drop_last(), q, dim, bound));
        }
    }
}

/// The offsets named by the first `m` entries of a result.
spec fn prefix_items(r: Seq<ItemAndDistance>, m: int) -> Set<int> {
    Set::new(|i: int| exists|jj: int| 0 <= jj < m && r[jj].item == i)
}

/// With pairwise-distinct entries, the first `m` entries name exactly `m`
/// offsets.
proof fn lemma_prefix_items_card(r: Seq<ItemAndDistance>, m: int)
    requires
        distinct_entries(r),
        0 <= m <= r.len(),
    ensures
        prefix_items(r, m).finite(),
        prefix_items(r, m).len() == m,
    decreases m,
{
    broadcast use vstd::set::group_set_axioms;

    if m == 0 {
        assert(prefix_items(r, 0) =~= Set::empty());
    } else {
        lemma_prefix_items_card(r, m - 1);
        assert(prefix_items(r, m) =~= prefix_items(r, m - 1).insert(r[m - 1].item as int)) by {
            assert forall|i: int| prefix_items(r, m).contains(i) implies prefix_items(
                r,
                m - 1,
            ).insert(r[m - 1].item as int).contains(i) by {
                let jj = choose|jj: int| 0 <= jj < m && r[jj].item == i;
                if jj < m - 1 {
                    assert(prefix_items(r, m - 1).contains(i));
                }
            }
            assert forall|i: int|
                prefix_items(r, m - 1).insert(r[m - 1].item as int).contains(i) implies prefix_items(
                r,
                m,
            ).contains(i) by {
                if prefix_items(r, m - 1).contains(i) {
                    let jj = choose|jj: int| 0 <= jj < m - 1 && r[jj].item == i;
                    assert(0 <= jj < m && r[jj].item == i);
                } else {
                    assert(r[m - 1].item == i);
                }
            }
        }
        assert(!prefix_items(r, m - 1).contains(r[m - 1].item as int)) by {
            if prefix_items(r, m - 1).contains(r[m - 1].item as int) {
                let jj = choose|jj: int|
                    0 <= jj < m - 1 && #[trigger] r[jj].item == r[m - 1].item as int;
                assert(r[jj].item != r[m - 1].item);
            }
        }
    }
}

/// One direction of the distance comparison: position `j` of a valid result
/// on `s1` is no farther than position `j` of a valid result on a
/// permutation `s2`. Were it farther, `s2` would show `j + 1` distinct
/// points strictly closer than that distance, so `s1` would too — yet all
/// such points sit among the first `j` entries of the first result.
proof fn lemma_knearest_le(
    s1: Seq<Vec<i64>>,
    s2: Seq<Vec<i64>>,
    q: Seq<i64>,
    dim: int,
    num: int,
    r1: Seq<ItemAndDistance>,
    r2: Seq<ItemAndDistance>,
    j: int,
)
    requires
        num >= 1,
        same_points(s1, s2),
        is_knearest_result(s1, q, dim, num, r1),
        is_knearest_result(s2, q, dim, num, r2),
        0 <= j < r1.len(),
        r1.len() == r2.len(),
    ensures
        r1[j].squared_distance <= r2[j].squared_distance,
{
    if r1[j].squared_distance > r2[j].squared_distance {
        let bound = r1[j].squared_distance as int;
        // The first j + 1 entries of r2 name j + 1 distinct offsets of s2,
        // all strictly closer than `bound`.
        lemma_prefix_items_card(r2, j + 1);
        lemma_count_close_is_card(s2, q, dim, bound);
        assert forall|i: int| prefix_items(r2, j + 1).contains(i) implies close_set(
            s2,
            q,
            dim,
            bound,
        ).contains(i) by {
            let jj = choose|jj: int| 0 <= jj < j + 1 && r2[jj].item == i;
            assert(r2[jj].squared_distance <= r2[j].squared_distance);
            assert(r2[jj].squared_distance == sq_dist(s2[r2[jj].item as int]@, q, dim));
        }
        vstd::set_lib::lemma_len_subset(prefix_items(r2, j + 1), close_set(s2, q, dim, bound));
        // Every offset of s1 strictly closer than `bound` sits among the
        // first j entries of r1.
        lemma_prefix_items_card(r1, j);
        lemma_count_close_is_card(s1, q, dim, bound);
        assert forall|i: int| close_set(s1, q, dim, bound).contains(i) implies prefix_items(
            r1,
            j,
        ).contains(i) by {
            assert(covered(r1, s1, q, dim, num, i));
            assert(r1[r1.len() - 1].squared_distance >= r1[j].squared_distance);
            let m = choose|m: int| 0 <= m < r1.len() && r1[m].item == i;
            assert(r1[m].squared_distance == sq_dist(s1[r1[m].item as int]@, q, dim));
            if m >= j {
                assert(r1[j].squared_distance <= r1[m].squared_distance);
            }
            assert(0 <= m < j && r1[m].item == i);
        }
        vstd::set_lib::lemma_len_subset(close_set(s1, q, dim, bound), prefix_items(r1, j));
        // Yet both trees hold the same number of points closer than `bound`.
        lemma_count_close_perm(s1, s2, q, dim, bound);
        assert(false);
    }
}

/// The k-nearest distances are the same over any two trees holding the same
/// multiset of points: any two results that [`kd_nearests`] could return for
/// permutations of one point set list exactly the same squared distances, in
/// the same ascending order. Only which of several exactly tied points is
/// named at a position may differ.
///
/// [`kd_nearests`]: crate::kd_nearests
pub proof fn lemma_nearests_permutation_invariant(
    s1: Seq<Vec<i64>>,
    s2: Seq<Vec<i64>>,
    q: Seq<i64>,
    dim: int,
    num: int,
    r1: Seq<ItemAndDistance>,
    r2: Seq<ItemAndDistance>,
)
    requires
        same_points(s1, s2),
        is_knearest_result(s1, q, dim, num, r1),
        is_knearest_result(s2, q, dim, num, r2),
    ensures
        dists_of(r1) == dists_of(r2),
{
    vstd::seq_lib::to_multiset_len(pts_of(s1));
    vstd::seq_lib::to_multiset_len(pts_of(s2));
    assert(r1.len() == r2.len());
    if num >= 1 {
        assert forall|j: int| 0 <= j < r1.len() implies dists_of(r1)[j] == dists_of(r2)[j] by {
            lemma_knearest_le(s1, s2, q, dim, num, r1, r2, j);
            lemma_knearest_le(s2, s1, q, dim, num, r2, r1, j);
        }
    }
    assert(dists_of(r1) =~= dists_of(r2));
}

/// A point lies in the set that an orthogonal range query reports — it is
/// held by the tree and lies in the box — independently of the order the
/// tree's points were supplied in: [`kd_within_by_cmp`] reports equal point
/// sets over any two trees built from the same multiset of points.
///
/// [`kd_within_by_cmp`]: crate::kd_within_by_cmp
pub proof fn lemma_within_permutation_invariant(
    s1: Seq<Vec<i64>>,
    s2: Seq<Vec<i64>>,
    lower: Seq<i64>,
    upper: Seq<i64>,
    dim: int,
    p: Seq<i64>,
)
    requires
        same_points(s1, s2),
    ensures
        (exists|i: int| 0 <= i < s1.len() && #[trigger] s1[i]@ == p && in_box(p, lower, upper, dim))
            <==> (exists|i: int|
            0 <= i < s2.len() && #[trigger] s2[i]@ == p && in_box(p, lower, upper, dim)),
{
    lemma_holds_point_permutation_invariant(s1, s2, p);
}

/// A point lies in the set that a radius query reports — it is held by the
/// tree and strictly inside the ball — independently of the order the
/// tree's points were supplied in: [`kd_within_radius`] reports equal point
/// sets over any two trees built from the same multiset of points.
///
/// [`kd_within_radius`]: crate::kd_within_radius
pub proof fn lemma_within_radius_permutation_invariant(
    s1: Seq<Vec<i64>>,
    s2: Seq<Vec<i64>>,
    q: Seq<i64>,
    dim: int,
    radius: int,
    p: Seq<i64>,
)
    requires
        same_points(s1, s2),
    ensures
        (exists|i: int|
            0 <= i < s1.len() && #[trigger] s1[i]@ == p && sq_dist(p, q, dim) < radius * radius)
            <==> (exists|i: int|
            0 <= i < s2.len() && #[trigger] s2[i]@ == p && sq_dist(p, q, dim) < radius * radius),
{
    lemma_holds_point_permutation_invariant(s1, s2, p);
}

} // verus!
