//! K-nearest-neighbor search: the same branch-and-bound traversal as the
//! single-nearest search, but holding a bounded list of the best candidates,
//! kept sorted ascending by squared distance. The far half of a node is
//! pruned only once the list is full and the splitting plane is at least as
//! far away as the current worst entry.

use vstd::prelude::*;

use crate::nearest::squared_distance;
use crate::{kd_ordered_range, lemma_outside_dist, sq_dist, valid_pt, valid_pts, ItemAndDistance,
    COORD_LIMIT, MAX_DIM};

verus! {

/// The entries are sorted ascending by squared distance.
pub open spec fn sorted_entries(r: Seq<ItemAndDistance>) -> bool {
    forall|j1: int, j2: int|
        0 <= j1 <= j2 < r.len() ==> #[trigger] r[j1].squared_distance
            <= #[trigger] r[j2].squared_distance
}

/// Every entry points at a point of the tree and carries its true squared
/// distance to the query.
pub open spec fn entries_ok(
    r: Seq<ItemAndDistance>,
    s: Seq<Vec<i64>>,
    q: Seq<i64>,
    dim: int,
) -> bool {
    forall|j: int|
        0 <= j < r.len() ==> #[trigger] r[j].item < s.len() && r[j].squared_distance == sq_dist(
            s[r[j].item as int]@,
            q,
            dim,
        )
}

/// No point offset occurs twice among the entries.
pub open spec fn distinct_entries(r: Seq<ItemAndDistance>) -> bool {
    forall|j1: int, j2: int|
        0 <= j1 < j2 < r.len() ==> #[trigger] r[j1].item != #[trigger] r[j2].item
}

/// Some entry points at offset `i`.
pub open spec fn contains_item(r: Seq<ItemAndDistance>, i: int) -> bool {
    exists|j: int| 0 <= j < r.len() && r[j].item == i
}

/// The squared distance of the last (worst) entry.
pub open spec fn worst(r: Seq<ItemAndDistance>) -> int {
    r[r.len() - 1].squared_distance as int
}

/// The offset `i` is accounted for by the candidate list `r`: either held,
/// or — the list being full — provably no closer than its worst entry.
pub open spec fn covered(
    r: Seq<ItemAndDistance>,
    s: Seq<Vec<i64>>,
    q: Seq<i64>,
    dim: int,
    num: int,
    i: int,
) -> bool {
    contains_item(r, i) || (r.len() == num && sq_dist(s[i]@, q, dim) >= worst(r))
}

/// Every entry of `a` is either still held by `b`, or was evicted from a
/// full list in favor of entries no worse.
spec fn kept_or_superseded(a: Seq<ItemAndDistance>, b: Seq<ItemAndDistance>, num: int) -> bool {
    forall|j: int|
        0 <= j < a.len() ==> contains_item(b, #[trigger] a[j].item as int) || (b.len() == num
            && a[j].squared_distance >= worst(b))
}

/// Once `a` is full, `b` is too and its worst entry is no farther.
spec fn worst_bounded(a: Seq<ItemAndDistance>, b: Seq<ItemAndDistance>, num: int) -> bool {
    a.len() == num ==> b.len() == num && worst(b) <= worst(a)
}

/// Every entry of `b` stems from `a` or points into `[lo, hi)`.
spec fn sourced(a: Seq<ItemAndDistance>, b: Seq<ItemAndDistance>, lo: int, hi: int) -> bool {
    forall|j: int|
        0 <= j < b.len() ==> contains_item(a, #[trigger] b[j].item as int) || lo <= b[j].item < hi
}

/// No entry points into `[lo, hi)`.
spec fn no_items_in(r: Seq<ItemAndDistance>, lo: int, hi: int) -> bool {
    forall|j: int| 0 <= j < r.len() ==> !(lo <= #[trigger] r[j].item < hi)
}

/// Inserts `entry` into the ascending list `acc`, bounded to `num` entries:
/// when the list is full the previous worst entry is evicted to make room.
#[verifier::rlimit(60)]
fn insert_bounded(acc: &mut Vec<ItemAndDistance>, entry: ItemAndDistance, num: usize)
    requires
        1 <= num,
        old(acc)@.len() <= num,
        sorted_entries(old(acc)@),
        distinct_entries(old(acc)@),
        !contains_item(old(acc)@, entry.item as int),
        old(acc)@.len() == num ==> entry.squared_distance < worst(old(acc)@),
    ensures
        final(acc)@.len() == if old(acc)@.len() < num {
            old(acc)@.len() + 1
        } else {
            num as nat
        },
        sorted_entries(final(acc)@),
        distinct_entries(final(acc)@),
        forall|j: int|
            0 <= j < final(acc)@.len() ==> #[trigger] final(acc)@[j] == entry || old(
                acc,
            )@.contains(final(acc)@[j]),
        contains_item(final(acc)@, entry.item as int),
        kept_or_superseded(old(acc)@, final(acc)@, num as int),
        worst_bounded(old(acc)@, final(acc)@, num as int),
{
    let ghost before = acc@;
    let full = acc.len() == num;
    if full {
        acc.pop();
    }
    let ghost kept = acc@;
    let mut pos: usize = acc.len();
    while pos > 0 && acc[pos - 1].squared_distance > entry.squared_distance
        invariant
            pos <= acc@.len(),
            acc@ == kept,
            forall|j: int|
                pos <= j < acc@.len() ==> #[trigger] acc@[j].squared_distance
                    > entry.squared_distance,
        decreases pos,
    {
        pos = pos - 1;
    }
    proof {
        kept.insert_ensures(pos as int, entry);
    }
    acc.insert(pos, entry);
    proof {
        let now = acc@;
        let p = pos as int;
        // `kept` is `before` minus (when full) its worst entry.
        assert(kept.len() == if before.len() < num {
            before.len() as int
        } else {
            num - 1
        });
        assert(forall|j: int| 0 <= j < kept.len() ==> kept[j] == before[j]);
        assert forall|j1: int, j2: int|
            0 <= j1 <= j2 < now.len() implies #[trigger] now[j1].squared_distance
            <= #[trigger] now[j2].squared_distance by {
            if j1 < p && j2 < p {
            } else if j2 == p {
                if j1 < p {
                    assert(now[j1] == kept[j1]);
                    assert(kept[p - 1].squared_distance <= entry.squared_distance);
                }
            } else if j1 == p {
                assert(now[j2] == kept[j2 - 1]);
            } else if j1 < p {
                assert(now[j1] == kept[j1]);
                assert(now[j2] == kept[j2 - 1]);
            } else {
                assert(now[j1] == kept[j1 - 1]);
                assert(now[j2] == kept[j2 - 1]);
            }
        }
        assert forall|j1: int, j2: int|
            0 <= j1 < j2 < now.len() implies #[trigger] now[j1].item != #[trigger] now[j2].item by {
            if j1 == p {
                assert(now[j2] == kept[j2 - 1]);
                if now[j2].item == entry.item {
                    assert(kept[j2 - 1] == before[j2 - 1]);
                    assert(contains_item(before, entry.item as int));
                }
            } else if j2 == p {
                let jj = if j1 < p {
                    j1
                } else {
                    j1 - 1
                };
                assert(now[j1] == kept[jj]);
                if now[j1].item == entry.item {
                    assert(kept[jj] == before[jj]);
                    assert(contains_item(before, entry.item as int));
                }
            } else {
                let a1 = if j1 < p {
                    j1
                } else {
                    j1 - 1
                };
                let a2 = if j2 < p {
                    j2
                } else {
                    j2 - 1
                };
                assert(now[j1] == kept[a1]);
                assert(now[j2] == kept[a2]);
            }
        }
        assert forall|j: int|
            0 <= j < now.len() implies #[trigger] now[j] == entry || before.contains(now[j]) by {
            if j < p {
                assert(now[j] == kept[j]);
                assert(kept[j] == before[j]);
            } else if j > p {
                assert(now[j] == kept[j - 1]);
                assert(kept[j - 1] == before[j - 1]);
            }
        }
        assert(contains_item(now, entry.item as int)) by {
            assert(now[p].item == entry.item);
        }
        // Every old entry either survives or was the evicted worst.
        assert forall|j: int| 0 <= j < before.len() implies contains_item(
            now,
            #[trigger] before[j].item as int,
        ) || (now.len() == num && before[j].squared_distance >= worst(now)) by {
            if j < kept.len() {
                let w = if j < p {
                    j
                } else {
                    j + 1
                };
                assert(now[w] == kept[j]);
                assert(now[w].item == before[j].item);
            } else {
                // `before` was full and `before[j]` is its worst entry.
                assert(j == before.len() - 1 && before.len() == num);
                assert(now.len() == num);
                assert(worst(now) <= before[j].squared_distance) by {
                    if num - 1 > p {
                        assert(now[num - 1] == kept[num - 2]);
                        assert(kept[num - 2] == before[num - 2]);
                    } else {
                        assert(now[num - 1] == entry);
                    }
                }
            }
        }
        if before.len() == num {
            assert(worst(now) <= worst(before)) by {
                if num - 1 > p {
                    assert(now[num - 1] == kept[num - 2]);
                    assert(kept[num - 2] == before[num - 2]);
                } else {
                    assert(now[num - 1] == entry);
                }
            }
        }
    }
}

/// A list that does not change keeps and sources every one of its entries.
proof fn lemma_self_sourced(a: Seq<ItemAndDistance>, num: int, lo: int, hi: int)
    ensures
        kept_or_superseded(a, a, num),
        sourced(a, a, lo, hi),
{
    assert forall|j: int| 0 <= j < a.len() implies contains_item(a, #[trigger] a[j].item as int) by {
        assert(0 <= j < a.len() && a[j].item == a[j].item as int);
    }
}

/// Entries drawn from a list of true entries, or equal to one further true
/// entry, are themselves true entries.
proof fn lemma_entries_ok_from_membership(
    a: Seq<ItemAndDistance>,
    b: Seq<ItemAndDistance>,
    e: ItemAndDistance,
    s: Seq<Vec<i64>>,
    q: Seq<i64>,
    dim: int,
)
    requires
        entries_ok(a, s, q, dim),
        e.item < s.len(),
        e.squared_distance == sq_dist(s[e.item as int]@, q, dim),
        forall|j: int| 0 <= j < b.len() ==> #[trigger] b[j] == e || a.contains(b[j]),
    ensures
        entries_ok(b, s, q, dim),
{
    assert forall|j: int|
        0 <= j < b.len() implies #[trigger] b[j].item < s.len() && b[j].squared_distance
        == sq_dist(s[b[j].item as int]@, q, dim) by {
        if b[j] != e {
            let w = choose|w: int| 0 <= w < a.len() && a[w] == b[j];
            assert(a[w].item < s.len());
        }
    }
}

/// A covered offset stays covered across a traversal step that keeps or
/// supersedes every entry without letting the worst distance grow.
proof fn lemma_covered_trans(
    b: Seq<ItemAndDistance>,
    c2: Seq<ItemAndDistance>,
    s: Seq<Vec<i64>>,
    q: Seq<i64>,
    dim: int,
    num: int,
    i: int,
)
    requires
        entries_ok(b, s, q, dim),
        0 <= i < s.len(),
        covered(b, s, q, dim, num, i),
        kept_or_superseded(b, c2, num),
        worst_bounded(b, c2, num),
    ensures
        covered(c2, s, q, dim, num, i),
{
    if contains_item(b, i) {
        let w = choose|w: int| 0 <= w < b.len() && b[w].item == i;
        assert(b[w].squared_distance == sq_dist(s[i]@, q, dim));
        assert(contains_item(c2, b[w].item as int) || (c2.len() == num && b[w].squared_distance
            >= worst(c2)));
    }
}

/// Transitivity of "kept or superseded" across two traversal steps.
proof fn lemma_supersede_trans(
    a: Seq<ItemAndDistance>,
    b: Seq<ItemAndDistance>,
    c2: Seq<ItemAndDistance>,
    s: Seq<Vec<i64>>,
    q: Seq<i64>,
    dim: int,
    num: int,
)
    requires
        entries_ok(a, s, q, dim),
        entries_ok(b, s, q, dim),
        kept_or_superseded(a, b, num),
        kept_or_superseded(b, c2, num),
        worst_bounded(b, c2, num),
    ensures
        kept_or_superseded(a, c2, num),
{
    assert forall|j: int|
        0 <= j < a.len() implies contains_item(c2, #[trigger] a[j].item as int) || (c2.len() == num
        && a[j].squared_distance >= worst(c2)) by {
        if contains_item(b, a[j].item as int) {
            let w = choose|w: int| 0 <= w < b.len() && b[w].item == a[j].item as int;
            assert(b[w].squared_distance == a[j].squared_distance);
            assert(contains_item(c2, b[w].item as int) || (c2.len() == num
                && b[w].squared_distance >= worst(c2)));
        }
    }
}

/// Transitivity of "stems from the start or from the range" across two
/// traversal steps.
proof fn lemma_sourced_trans(
    a: Seq<ItemAndDistance>,
    b: Seq<ItemAndDistance>,
    c2: Seq<ItemAndDistance>,
    lo: int,
    hi: int,
)
    requires
        sourced(a, b, lo, hi),
        sourced(b, c2, lo, hi),
    ensures
        sourced(a, c2, lo, hi),
{
    assert forall|j: int|
        0 <= j < c2.len() implies contains_item(a, #[trigger] c2[j].item as int) || lo
        <= c2[j].item < hi by {
        if contains_item(b, c2[j].item as int) {
            let w = choose|w: int| 0 <= w < b.len() && b[w].item == c2[j].item as int;
            assert(contains_item(a, b[w].item as int) || lo <= b[w].item < hi);
        }
    }
}

/// A step whose new entries come from a range disjoint from the target range
/// brings no entry into the target range.
proof fn lemma_no_items(
    a: Seq<ItemAndDistance>,
    b: Seq<ItemAndDistance>,
    lo: int,
    hi: int,
    slo: int,
    shi: int,
    tlo: int,
    thi: int,
)
    requires
        no_items_in(a, lo, hi),
        sourced(a, b, slo, shi),
        lo <= tlo,
        thi <= hi,
        shi <= tlo || thi <= slo,
    ensures
        no_items_in(b, tlo, thi),
{
    assert forall|j: int| 0 <= j < b.len() implies !(tlo <= #[trigger] b[j].item < thi) by {
        if contains_item(a, b[j].item as int) {
            let w = choose|w: int| 0 <= w < a.len() && a[w].item == b[j].item as int;
            assert(!(lo <= a[w].item < hi));
        }
    }
}

/// Composes the three steps of one traversal level — fold in the node,
/// search the near half, search the far half — into the contract of the
/// whole level.
proof fn lemma_assemble(
    s: Seq<Vec<i64>>,
    q: Seq<i64>,
    dim: int,
    num: int,
    acc0: Seq<ItemAndDistance>,
    acc1: Seq<ItemAndDistance>,
    acc2: Seq<ItemAndDistance>,
    acc3: Seq<ItemAndDistance>,
    lo: int,
    hi: int,
    mid: int,
    nlo: int,
    nhi: int,
    flo: int,
    fhi: int,
)
    requires
        0 <= lo <= mid < hi <= s.len(),
        (nlo == lo && nhi == mid && flo == mid + 1 && fhi == hi) || (nlo == mid + 1 && nhi == hi
            && flo == lo && fhi == mid),
        entries_ok(acc0, s, q, dim),
        entries_ok(acc1, s, q, dim),
        entries_ok(acc2, s, q, dim),
        covered(acc1, s, q, dim, num, mid),
        kept_or_superseded(acc0, acc1, num),
        worst_bounded(acc0, acc1, num),
        sourced(acc0, acc1, mid, mid + 1),
        forall|i: int| nlo <= i < nhi ==> #[trigger] covered(acc2, s, q, dim, num, i),
        kept_or_superseded(acc1, acc2, num),
        worst_bounded(acc1, acc2, num),
        sourced(acc1, acc2, nlo, nhi),
        forall|i: int| flo <= i < fhi ==> #[trigger] covered(acc3, s, q, dim, num, i),
        kept_or_superseded(acc2, acc3, num),
        worst_bounded(acc2, acc3, num),
        sourced(acc2, acc3, flo, fhi),
    ensures
        forall|i: int| lo <= i < hi ==> #[trigger] covered(acc3, s, q, dim, num, i),
        kept_or_superseded(acc0, acc3, num),
        worst_bounded(acc0, acc3, num),
        sourced(acc0, acc3, lo, hi),
{
    lemma_supersede_trans(acc0, acc1, acc2, s, q, dim, num);
    lemma_supersede_trans(acc0, acc2, acc3, s, q, dim, num);
    assert(sourced(acc0, acc1, lo, hi));
    assert(sourced(acc1, acc2, lo, hi));
    assert(sourced(acc2, acc3, lo, hi));
    lemma_sourced_trans(acc0, acc1, acc2, lo, hi);
    lemma_sourced_trans(acc0, acc2, acc3, lo, hi);
    assert forall|i: int| lo <= i < hi implies #[trigger] covered(acc3, s, q, dim, num, i) by {
        if i == mid {
            lemma_covered_trans(acc1, acc2, s, q, dim, num, i);
            lemma_covered_trans(acc2, acc3, s, q, dim, num, i);
        } else if nlo <= i < nhi {
            lemma_covered_trans(acc2, acc3, s, q, dim, num, i);
        }
    }
}

/// Folds the node of a subrange into the candidate list: it is inserted
/// whenever the list is not yet full or it beats the current worst entry.
fn fold_node(
    kdtree: &Vec<Vec<i64>>,
    query: &Vec<i64>,
    dim: usize,
    num: usize,
    lo: usize,
    hi: usize,
    mid: usize,
    acc: &mut Vec<ItemAndDistance>,
)
    requires
        lo <= mid < hi <= kdtree@.len(),
        1 <= dim <= MAX_DIM,
        1 <= num,
        valid_pts(kdtree@, dim as int),
        valid_pt(query@, dim as int),
        old(acc)@.len() <= num,
        sorted_entries(old(acc)@),
        distinct_entries(old(acc)@),
        entries_ok(old(acc)@, kdtree@, query@, dim as int),
        no_items_in(old(acc)@, lo as int, hi as int),
    ensures
        final(acc)@.len() == vstd::math::min(num as int, old(acc)@.len() as int + 1),
        sorted_entries(final(acc)@),
        distinct_entries(final(acc)@),
        entries_ok(final(acc)@, kdtree@, query@, dim as int),
        covered(final(acc)@, kdtree@, query@, dim as int, num as int, mid as int),
        kept_or_superseded(old(acc)@, final(acc)@, num as int),
        worst_bounded(old(acc)@, final(acc)@, num as int),
        sourced(old(acc)@, final(acc)@, mid as int, mid + 1),
        no_items_in(final(acc)@, lo as int, mid as int),
        no_items_in(final(acc)@, mid + 1, hi as int),
{
    let ghost s = kdtree@;
    let ghost q = query@;
    let ghost dm = dim as int;
    let ghost nm = num as int;
    let ghost acc0 = acc@;
    let d = squared_distance(&kdtree[mid], query, dim);
    let ghost entry = ItemAndDistance { item: mid, squared_distance: d };
    if acc.len() < num || d < acc[acc.len() - 1].squared_distance {
        proof {
            if contains_item(acc@, mid as int) {
                let w = choose|w: int| 0 <= w < acc@.len() && acc@[w].item == mid as int;
                assert(!(lo <= acc0[w].item < hi));
            }
        }
        insert_bounded(acc, ItemAndDistance { item: mid, squared_distance: d }, num);
        proof {
            lemma_entries_ok_from_membership(acc0, acc@, entry, s, q, dm);
            assert forall|j: int|
                0 <= j < acc@.len() implies contains_item(acc0, #[trigger] acc@[j].item as int)
                || mid <= acc@[j].item < mid + 1 by {
                if acc@[j] != entry {
                    let w = choose|w: int| 0 <= w < acc0.len() && acc0[w] == acc@[j];
                    assert(acc0[w].item == acc@[j].item);
                }
            }
        }
    } else {
        proof {
            lemma_self_sourced(acc@, nm, mid as int, mid + 1);
        }
    }
    proof {
        lemma_no_items(acc0, acc@, lo as int, hi as int, mid as int, mid + 1, lo as int, mid as int);
        lemma_no_items(acc0, acc@, lo as int, hi as int, mid as int, mid + 1, mid + 1, hi as int);
    }
}

/// Visits the far half `[flo, fhi)` of a node whose splitting coordinate is
/// `c`: recurses only where the list is not yet full or the splitting plane
/// is closer than the current worst entry; a pruned half is provably unable
/// to improve any candidate.
fn search_far(
    kdtree: &Vec<Vec<i64>>,
    query: &Vec<i64>,
    dim: usize,
    num: usize,
    flo: usize,
    fhi: usize,
    axis: usize,
    next: usize,
    c: i64,
    acc: &mut Vec<ItemAndDistance>,
)
    requires
        flo < fhi,
        fhi <= kdtree@.len(),
        1 <= dim <= MAX_DIM,
        axis < dim,
        next == crate::next_axis(axis as int, dim as int),
        1 <= num,
        valid_pts(kdtree@, dim as int),
        valid_pt(query@, dim as int),
        kd_ordered_range(kdtree@, flo as int, fhi as int, next as int, dim as int),
        (query@[axis as int] <= c && forall|i: int|
            flo <= i < fhi ==> #[trigger] kdtree@[i]@[axis as int] >= c) || (query@[axis as int]
            >= c && forall|i: int| flo <= i < fhi ==> #[trigger] kdtree@[i]@[axis as int] <= c),
        -COORD_LIMIT <= c <= COORD_LIMIT,
        old(acc)@.len() <= num,
        sorted_entries(old(acc)@),
        distinct_entries(old(acc)@),
        entries_ok(old(acc)@, kdtree@, query@, dim as int),
        no_items_in(old(acc)@, flo as int, fhi as int),
    ensures
        final(acc)@.len() == vstd::math::min(num as int, old(acc)@.len() as int + (fhi - flo)),
        sorted_entries(final(acc)@),
        distinct_entries(final(acc)@),
        entries_ok(final(acc)@, kdtree@, query@, dim as int),
        forall|i: int|
            flo <= i < fhi ==> #[trigger] covered(
                final(acc)@,
                kdtree@,
                query@,
                dim as int,
                num as int,
                i,
            ),
        kept_or_superseded(old(acc)@, final(acc)@, num as int),
        worst_bounded(old(acc)@, final(acc)@, num as int),
        sourced(old(acc)@, final(acc)@, flo as int, fhi as int),
    decreases fhi - flo, 1int,
{
    let ghost s = kdtree@;
    let ghost q = query@;
    let ghost dm = dim as int;
    let ghost nm = num as int;
    let qa = query[axis];
    let diff = if qa < c {
        c - qa
    } else {
        qa - c
    };
    proof {
        assert(0 <= diff * diff <= 4 * COORD_LIMIT * COORD_LIMIT) by (nonlinear_arith)
            requires
                -2 * COORD_LIMIT <= diff <= 2 * COORD_LIMIT,
        ;
    }
    if acc.len() < num || diff * diff < acc[acc.len() - 1].squared_distance {
        nearests_range(kdtree, query, dim, num, flo, fhi, next, acc);
    } else {
        proof {
            assert((c - qa) * (c - qa) == diff * diff) by (nonlinear_arith)
                requires
                    diff == c - qa || diff == qa - c,
            ;
            assert forall|i: int| flo <= i < fhi implies #[trigger] covered(
                acc@,
                s,
                q,
                dm,
                nm,
                i,
            ) by {
                lemma_outside_dist(s[i]@, q, dm, axis as int, c as int);
            }
            lemma_self_sourced(acc@, nm, flo as int, fhi as int);
        }
    }
}

/// Searches the subrange `[lo, hi)`, folding every visited point into the
/// bounded candidate list. While the list has fewer than `num` entries no
/// half is pruned; once full, a far half is skipped exactly when the
/// splitting plane is at least as far from the query as the current worst
/// entry.
fn nearests_range(
    kdtree: &Vec<Vec<i64>>,
    query: &Vec<i64>,
    dim: usize,
    num: usize,
    lo: usize,
    hi: usize,
    axis: usize,
    acc: &mut Vec<ItemAndDistance>,
)
    requires
        lo < hi,
        hi <= kdtree@.len(),
        1 <= dim <= MAX_DIM,
        axis < dim,
        1 <= num,
        valid_pts(kdtree@, dim as int),
        valid_pt(query@, dim as int),
        kd_ordered_range(kdtree@, lo as int, hi as int, axis as int, dim as int),
        old(acc)@.len() <= num,
        sorted_entries(old(acc)@),
        distinct_entries(old(acc)@),
        entries_ok(old(acc)@, kdtree@, query@, dim as int),
        no_items_in(old(acc)@, lo as int, hi as int),
    ensures
        final(acc)@.len() == vstd::math::min(num as int, old(acc)@.len() as int + (hi - lo)),
        sorted_entries(final(acc)@),
        distinct_entries(final(acc)@),
        entries_ok(final(acc)@, kdtree@, query@, dim as int),
        sourced(old(acc)@, final(acc)@, lo as int, hi as int),
        forall|i: int|
            lo <= i < hi ==> #[trigger] covered(
                final(acc)@,
                kdtree@,
                query@,
                dim as int,
                num as int,
                i,
            ),
        kept_or_superseded(old(acc)@, final(acc)@, num as int),
        worst_bounded(old(acc)@, final(acc)@, num as int),
    decreases hi - lo, 0int,
{
    let ghost s = kdtree@;
    let ghost q = query@;
    let ghost dm = dim as int;
    let ghost nm = num as int;
    let ghost acc0 = acc@;
    let mid = lo + (hi - lo) / 2;
    fold_node(kdtree, query, dim, num, lo, hi, mid, acc);
    let ghost acc1 = acc@;
    let c = kdtree[mid][axis];
    let qa = query[axis];
    let next = if axis + 1 == dim {
        0
    } else {
        axis + 1
    };
    // The half holding the query is searched first; the far half only where
    // it can still improve on the worst candidate.
    let near_left = qa < c;
    let nlo = if near_left {
        lo
    } else {
        mid + 1
    };
    let nhi = if near_left {
        mid
    } else {
        hi
    };
    let flo = if near_left {
        mid + 1
    } else {
        lo
    };
    let fhi = if near_left {
        hi
    } else {
        mid
    };
    if nlo < nhi {
        nearests_range(kdtree, query, dim, num, nlo, nhi, next, acc);
    } else {
        proof {
            lemma_self_sourced(acc@, nm, nlo as int, nhi as int);
        }
    }
    let ghost acc2 = acc@;
    proof {
        assert(sourced(acc1, acc2, nlo as int, nhi as int));
        lemma_no_items(
            acc1,
            acc2,
            flo as int,
            fhi as int,
            nlo as int,
            nhi as int,
            flo as int,
            fhi as int,
        );
    }
    if flo < fhi {
        search_far(kdtree, query, dim, num, flo, fhi, axis, next, c, acc);
    } else {
        proof {
            lemma_self_sourced(acc@, nm, flo as int, fhi as int);
        }
    }
    proof {
        let acc3 = acc@;
        assert(sourced(acc2, acc3, flo as int, fhi as int));
        assert(acc3.len() == vstd::math::min(nm, acc0.len() as int + (hi - lo)));
        lemma_assemble(
            s,
            q,
            dm,
            nm,
            acc0,
            acc1,
            acc2,
            acc3,
            lo as int,
            hi as int,
            mid as int,
            nlo as int,
            nhi as int,
            flo as int,
            fhi as int,
        );
    }
}

/// Returns the `num` points of the tree nearest to `query` (their offsets and
/// squared distances), in ascending order of squared distance. The result
/// holds `min(num, n)` entries for a tree of `n` points — an empty list when
/// `num` is zero or the tree is empty — and no point outside the result is
/// closer than the worst entry returned. The tree must be in kd order
/// ([`kd_sort`]). Ties may resolve to either candidate.
///
/// [`kd_sort`]: crate::kd_sort
pub fn kd_nearests(kdtree: &Vec<Vec<i64>>, query: &Vec<i64>, num: usize, dim: usize) -> (r: Vec<
    ItemAndDistance,
>)
    requires
        1 <= dim <= MAX_DIM,
        valid_pts(kdtree@, dim as int),
        valid_pt(query@, dim as int),
        kd_ordered_range(kdtree@, 0, kdtree@.len() as int, 0, dim as int),
    ensures
        r@.len() == vstd::math::min(num as int, kdtree@.len() as int),
        sorted_entries(r@),
        distinct_entries(r@),
        entries_ok(r@, kdtree@, query@, dim as int),
        num > 0 ==> forall|i: int|
            0 <= i < kdtree@.len() ==> #[trigger] covered(
                r@,
                kdtree@,
                query@,
                dim as int,
                num as int,
                i,
            ),
{
    let n = kdtree.len();
    if num == 0 || n == 0 {
        let r: Vec<ItemAndDistance> = Vec::new();
        return r;
    }
    let mut acc: Vec<ItemAndDistance> = Vec::new();
    nearests_range(kdtree, query, dim, num, 0, n, 0, &mut acc);
    acc
}

} // verus!
