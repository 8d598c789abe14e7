use vstd::multiset::Multiset;
use vstd::prelude::*;

use crate::distance_measure::{radius_threshold, spec_radius, DistanceMeasure};
use crate::index::{spec_within_ids, SpatialIndex};
use crate::parallel::seek::clone_row;
use crate::utils::{
    lemma_lex_cmp_equal, lemma_lex_cmp_flip, lemma_lex_cmp_self, lemma_lex_cmp_trans_less,
    row_ok, spec_lex_cmp, BANDWIDTH_LIMIT, ROWS_LIMIT,
};

verus! {

/// A candidate mode: its mean, its support, the iterations it took, and
/// its identifier.
pub type Candidate = (Vec<i64>, usize, usize, usize);

/// The candidates that the collector works on are well formed: every mean
/// has the same dimension and bounded coordinates, every support is
/// positive, and the identifiers are exactly the positions.
pub open spec fn cands_wf(cs: Seq<(Seq<i64>, usize, usize, usize)>, d: int) -> bool {
    &&& cs.len() <= ROWS_LIMIT
    &&& forall|i: int|
        0 <= i < cs.len() ==> (#[trigger] cs[i]).0.len() == d && row_ok(cs[i].0) && cs[i].1 >= 1
            && cs[i].3 == i
}

/// Position `p` sorts no later than position `q`: higher support first,
/// ties broken by descending lexicographic order of the means, and then by
/// position, so the order is total and deterministic.  Positions outside
/// the candidate list sort after all candidates, among themselves by
/// position.
pub open spec fn cand_le(cs: Seq<(Seq<i64>, usize, usize, usize)>, p: usize, q: usize) -> bool {
    let in_p = (p as int) < cs.len();
    let in_q = (q as int) < cs.len();
    if in_p && !in_q {
        true
    } else if !in_p && in_q {
        false
    } else if !in_p && !in_q {
        p <= q
    } else {
        let cp = cs[p as int];
        let cq = cs[q as int];
        if cp.1 != cq.1 {
            cp.1 > cq.1
        } else {
            match spec_lex_cmp(cp.0, cq.0) {
                core::cmp::Ordering::Greater => true,
                core::cmp::Ordering::Less => false,
                core::cmp::Ordering::Equal => p <= q,
            }
        }
    }
}

/// On a well-formed candidate list the order is a total ordering.
pub proof fn lemma_cand_le_total_ordering(
    cs: Seq<(Seq<i64>, usize, usize, usize)>,
    d: int,
    leq: spec_fn(usize, usize) -> bool,
)
    requires
        cands_wf(cs, d),
        leq == (|p: usize, q: usize| cand_le(cs, p, q)),
    ensures
        vstd::relations::total_ordering(leq),
{
    assert forall|x: usize| #[trigger] leq(x, x) by {
        if (x as int) < cs.len() {
            lemma_lex_cmp_self(cs[x as int].0);
        }
    }
    assert forall|x: usize, y: usize| #[trigger] leq(x, y) && #[trigger] leq(y, x) implies x
        == y by {
        if (x as int) < cs.len() && (y as int) < cs.len() {
            lemma_lex_cmp_flip(cs[x as int].0, cs[y as int].0);
        }
    }
    assert forall|x: usize, y: usize, z: usize|
        #[trigger] leq(x, y) && #[trigger] leq(y, z) implies leq(x, z) by {
        if (x as int) < cs.len() && (y as int) < cs.len() && (z as int) < cs.len() {
            let mx = cs[x as int].0;
            let my = cs[y as int].0;
            let mz = cs[z as int].0;
            if cs[x as int].1 == cs[y as int].1 && cs[y as int].1 == cs[z as int].1 {
                let cxy = spec_lex_cmp(mx, my);
                let cyz = spec_lex_cmp(my, mz);
                if cxy == core::cmp::Ordering::Equal {
                    lemma_lex_cmp_equal(mx, my);
                } else {
                    assert(cxy == core::cmp::Ordering::Greater);
                    if cyz == core::cmp::Ordering::Equal {
                        lemma_lex_cmp_equal(my, mz);
                    } else {
                        assert(cyz == core::cmp::Ordering::Greater);
                        lemma_lex_cmp_flip(mx, my);
                        lemma_lex_cmp_flip(my, mz);
                        lemma_lex_cmp_trans_less(mz, my, mx);
                        lemma_lex_cmp_flip(mx, mz);
                    }
                }
            }
        }
    }
    assert forall|x: usize, y: usize| #[trigger] leq(x, y) || #[trigger] leq(y, x) by {
        if (x as int) < cs.len() && (y as int) < cs.len() {
            lemma_lex_cmp_flip(cs[x as int].0, cs[y as int].0);
        }
    }
}

/// The candidate positions in sorted order.
pub open spec fn spec_sorted_cand_positions(cs: Seq<(Seq<i64>, usize, usize, usize)>) -> Seq<
    usize,
> {
    crate::index::spec_positions(cs.len()).sort_by(|p: usize, q: usize| cand_le(cs, p, q))
}

/// The candidates in sorted order.
pub open spec fn spec_sorted_cands(cs: Seq<(Seq<i64>, usize, usize, usize)>) -> Seq<
    (Seq<i64>, usize, usize, usize),
> {
    spec_sorted_cand_positions(cs).map(|t: int, p: usize| cs[p as int])
}

/// Remove every candidate whose mean equals its predecessor's mean,
/// keeping the first of each run.
pub open spec fn spec_dedup(s: Seq<(Seq<i64>, usize, usize, usize)>) -> Seq<
    (Seq<i64>, usize, usize, usize),
>
    decreases s.len(),
{
    if s.len() <= 1 {
        s
    } else {
        let rest = spec_dedup(s.drop_last());
        if s.last().0 == s[s.len() - 2].0 {
            rest
        } else {
            rest.push(s.last())
        }
    }
}

/// Set the flag of every listed identifier to false; identifiers out of
/// range are ignored.
pub open spec fn mark_ids(uniq: Seq<bool>, ids: Seq<usize>) -> Seq<bool>
    decreases ids.len(),
{
    if ids.len() == 0 {
        uniq
    } else {
        let u2 = if (ids[0] as int) < uniq.len() {
            uniq.update(ids[0] as int, false)
        } else {
            uniq
        };
        mark_ids(u2, ids.skip(1))
    }
}

pub proof fn lemma_mark_ids_pointwise(uniq: Seq<bool>, ids: Seq<usize>)
    requires
        uniq.len() <= usize::MAX,
    ensures
        mark_ids(uniq, ids).len() == uniq.len(),
        forall|k: int|
            0 <= k < uniq.len() ==> #[trigger] mark_ids(uniq, ids)[k] == (uniq[k] && !ids.contains(
                k as usize,
            )),
    decreases ids.len(),
{
    if ids.len() != 0 {
        let u2 = if (ids[0] as int) < uniq.len() {
            uniq.update(ids[0] as int, false)
        } else {
            uniq
        };
        lemma_mark_ids_pointwise(u2, ids.skip(1));
        assert forall|k: int|
            0 <= k < uniq.len() implies #[trigger] mark_ids(uniq, ids)[k] == (uniq[k]
            && !ids.contains(k as usize)) by {
            assert(mark_ids(uniq, ids)[k] == (u2[k] && !ids.skip(1).contains(k as usize)));
            if ids.contains(k as usize) {
                let t = choose|t: int| 0 <= t < ids.len() && ids[t] == k as usize;
                if t == 0 {
                    assert(u2[k] == false);
                } else {
                    assert(ids.skip(1)[t - 1] == k as usize);
                    assert(ids.skip(1).contains(k as usize));
                }
            } else {
                assert(ids[0] != k as usize);
                assert(u2[k] == uniq[k]);
                assert(!ids.skip(1).contains(k as usize)) by {
                    if ids.skip(1).contains(k as usize) {
                        let t = choose|t: int|
                            0 <= t < ids.skip(1).len() && ids.skip(1)[t] == k as usize;
                        assert(ids[t + 1] == k as usize);
                    }
                }
            }
        }
    }
}

/// The suppression walk from position `p` on: a candidate whose flag is
/// still set suppresses every candidate within one bandwidth of it and
/// re-asserts itself.
pub open spec fn spec_nms_loop<D: DistanceMeasure>(
    means: Seq<(Seq<i64>, usize, usize, usize)>,
    tpoints: Seq<Seq<i64>>,
    tids: Seq<usize>,
    bw: int,
    uniq: Seq<bool>,
    p: nat,
) -> Seq<bool>
    decreases means.len() - p,
{
    if p >= means.len() {
        uniq
    } else {
        let c = means[p as int];
        let u2 = if (c.3 as int) < uniq.len() && uniq[c.3 as int] {
            let nbrs = spec_within_ids::<D>(tpoints, tids, c.0, spec_radius(bw, D::squared()));
            mark_ids(uniq, nbrs).update(c.3 as int, true)
        } else {
            uniq
        };
        spec_nms_loop::<D>(means, tpoints, tids, bw, u2, p + 1)
    }
}

/// The means of the candidates whose flag survived, in order.
pub open spec fn spec_filter_unique(
    means: Seq<(Seq<i64>, usize, usize, usize)>,
    uniq: Seq<bool>,
) -> Seq<Seq<i64>>
    decreases means.len(),
{
    if means.len() == 0 {
        Seq::empty()
    } else {
        let rest = spec_filter_unique(means.drop_last(), uniq);
        let c = means.last();
        if (c.3 as int) < uniq.len() && uniq[c.3 as int] {
            rest.push(c.0)
        } else {
            rest
        }
    }
}

/// The collector: sort, deduplicate, suppress, and keep the surviving
/// means.
pub open spec fn spec_collect<D: DistanceMeasure>(
    cs: Seq<(Seq<i64>, usize, usize, usize)>,
    bw: int,
) -> Seq<Seq<i64>> {
    let dd = spec_dedup(spec_sorted_cands(cs));
    let tpoints = dd.map(|t: int, c: (Seq<i64>, usize, usize, usize)| c.0);
    let tids = dd.map(|t: int, c: (Seq<i64>, usize, usize, usize)| c.3);
    let uniq0 = Seq::new(cs.len(), |t: int| true);
    let uniq = spec_nms_loop::<D>(dd, tpoints, tids, bw, uniq0, 0);
    spec_filter_unique(dd, uniq)
}

/// A radius query reports every stored row within the threshold.
proof fn lemma_within_ids_complete<D: DistanceMeasure>(
    points: Seq<Seq<i64>>,
    ids: Seq<usize>,
    q: Seq<i64>,
    thr: int,
    y: int,
)
    requires
        points.len() == ids.len(),
        0 <= y < points.len(),
        D::spec_optimized(q, points[y]) <= thr,
    ensures
        spec_within_ids::<D>(points, ids, q, thr).contains(ids[y]),
    decreases points.len(),
{
    let whole = spec_within_ids::<D>(points, ids, q, thr);
    if y == points.len() - 1 {
        assert(points.last() == points[y]);
        assert(whole.last() == ids[y]);
        assert(whole[whole.len() - 1] == ids[y]);
    } else {
        lemma_within_ids_complete::<D>(points.drop_last(), ids.drop_last(), q, thr, y);
        let rest = spec_within_ids::<D>(points.drop_last(), ids.drop_last(), q, thr);
        let t = choose|t: int| 0 <= t < rest.len() && rest[t] == ids.drop_last()[y];
        assert(ids.drop_last()[y] == ids[y]);
        assert(whole[t] == ids[y]);
    }
}

/// The suppression walk only ever clears flags, and after it two distinct
/// candidates whose flags are still set are farther apart than the radius.
proof fn lemma_nms_separation<D: DistanceMeasure>(
    means: Seq<(Seq<i64>, usize, usize, usize)>,
    tpoints: Seq<Seq<i64>>,
    tids: Seq<usize>,
    bw: int,
    uniq: Seq<bool>,
    p: nat,
)
    requires
        tpoints.len() == means.len(),
        tids.len() == means.len(),
        forall|x: int|
            0 <= x < means.len() ==> tpoints[x] == (#[trigger] means[x]).0 && tids[x]
                == means[x].3,
        uniq.len() <= usize::MAX,
        forall|x: int| 0 <= x < means.len() ==> ((#[trigger] means[x]).3 as int) < uniq.len(),
        forall|x: int, y: int|
            0 <= x < y < means.len() ==> (#[trigger] means[x]).3 != (#[trigger] means[y]).3,
        0 <= p <= means.len(),
        forall|x: int, y: int|
            0 <= x < p && 0 <= y < means.len() && x != y && uniq[(#[trigger] means[x]).3 as int]
                && uniq[(#[trigger] means[y]).3 as int] ==> D::spec_optimized(
                means[x].0,
                means[y].0,
            ) > spec_radius(bw, D::squared()),
    ensures
        spec_nms_loop::<D>(means, tpoints, tids, bw, uniq, p).len() == uniq.len(),
        forall|k: int|
            0 <= k < uniq.len() ==> (#[trigger] spec_nms_loop::<D>(
                means,
                tpoints,
                tids,
                bw,
                uniq,
                p,
            )[k] ==> uniq[k]),
        forall|x: int, y: int|
            0 <= x < means.len() && 0 <= y < means.len() && x != y && spec_nms_loop::<D>(
                means,
                tpoints,
                tids,
                bw,
                uniq,
                p,
            )[(#[trigger] means[x]).3 as int] && spec_nms_loop::<D>(
                means,
                tpoints,
                tids,
                bw,
                uniq,
                p,
            )[(#[trigger] means[y]).3 as int] ==> D::spec_optimized(means[x].0, means[y].0)
                > spec_radius(bw, D::squared()),
    decreases means.len() - p,
{
    if p < means.len() {
        let c = means[p as int];
        let radius = spec_radius(bw, D::squared());
        if (c.3 as int) < uniq.len() && uniq[c.3 as int] {
            let nbrs = spec_within_ids::<D>(tpoints, tids, c.0, radius);
            let marked = mark_ids(uniq, nbrs);
            let u2 = marked.update(c.3 as int, true);
            lemma_mark_ids_pointwise(uniq, nbrs);
            assert forall|x: int, y: int|
                0 <= x < p + 1 && 0 <= y < means.len() && x != y && u2[(#[trigger] means[x]).3
                as int] && u2[(#[trigger] means[y]).3 as int] implies D::spec_optimized(
                means[x].0,
                means[y].0,
            ) > radius by {
                if x < p {
                    assert(means[x].3 != c.3);
                    assert(uniq[means[x].3 as int]);
                    if y != p {
                        assert(means[y].3 != c.3);
                        assert(uniq[means[y].3 as int]);
                    } else {
                        assert(uniq[means[y].3 as int]);
                    }
                } else {
                    assert(x == p);
                    assert(means[y].3 != c.3);
                    assert(u2[means[y].3 as int] == marked[means[y].3 as int]);
                    if D::spec_optimized(c.0, means[y].0) <= radius {
                        lemma_within_ids_complete::<D>(tpoints, tids, c.0, radius, y);
                        assert(nbrs.contains(tids[y]));
                        assert(marked[means[y].3 as int] == false);
                    }
                }
            }
            lemma_nms_separation::<D>(means, tpoints, tids, bw, u2, p + 1);
        } else {
            lemma_nms_separation::<D>(means, tpoints, tids, bw, uniq, p + 1);
        }
    }
}

/// Every kept mean belongs to a candidate whose flag survived, and any
/// two kept means are farther apart than the radius.
proof fn lemma_filter_separation<D: DistanceMeasure>(
    means: Seq<(Seq<i64>, usize, usize, usize)>,
    uniq: Seq<bool>,
    radius: int,
)
    requires
        forall|x: int, y: int|
            0 <= x < means.len() && 0 <= y < means.len() && x != y && ((#[trigger] means[x]).3
                as int) < uniq.len() && uniq[means[x].3 as int] && ((#[trigger] means[y]).3
                as int) < uniq.len() && uniq[means[y].3 as int] ==> D::spec_optimized(
                means[x].0,
                means[y].0,
            ) > radius,
    ensures
        forall|i: int|
            0 <= i < spec_filter_unique(means, uniq).len() ==> exists|x: int|
                0 <= x < means.len() && ((#[trigger] means[x]).3 as int) < uniq.len()
                    && uniq[means[x].3 as int] && #[trigger] spec_filter_unique(means, uniq)[i]
                    == means[x].0,
        forall|i: int, j: int|
            0 <= i < spec_filter_unique(means, uniq).len() && 0 <= j < spec_filter_unique(
                means,
                uniq,
            ).len() && i != j ==> D::spec_optimized(
                #[trigger] spec_filter_unique(means, uniq)[i],
                #[trigger] spec_filter_unique(means, uniq)[j],
            ) > radius,
    decreases means.len(),
{
    if means.len() > 0 {
        lemma_filter_separation::<D>(means.drop_last(), uniq, radius);
        let rest = spec_filter_unique(means.drop_last(), uniq);
        let whole = spec_filter_unique(means, uniq);
        let c = means.last();
        let n = means.len() - 1;
        assert(means[n] == c);
        assert forall|i: int| 0 <= i < whole.len() implies exists|x: int|
            0 <= x < means.len() && ((#[trigger] means[x]).3 as int) < uniq.len()
                && uniq[means[x].3 as int] && #[trigger] whole[i] == means[x].0 by {
            if i < rest.len() {
                assert(whole[i] == rest[i]);
                let x = choose|x: int|
                    0 <= x < means.drop_last().len() && ((means.drop_last()[x]).3 as int)
                        < uniq.len() && uniq[means.drop_last()[x].3 as int] && rest[i]
                        == means.drop_last()[x].0;
                assert(means.drop_last()[x] == means[x]);
                assert(whole[i] == means[x].0);
            } else {
                assert(whole[i] == c.0);
                assert(whole[i] == means[n].0);
            }
        }
        assert forall|i: int, j: int|
            0 <= i < whole.len() && 0 <= j < whole.len() && i != j implies D::spec_optimized(
            #[trigger] whole[i],
            #[trigger] whole[j],
        ) > radius by {
            if i < rest.len() && j < rest.len() {
                assert(whole[i] == rest[i] && whole[j] == rest[j]);
            } else if i < rest.len() {
                assert(whole[j] == c.0 && whole[i] == rest[i]);
                let x = choose|x: int|
                    0 <= x < means.drop_last().len() && ((means.drop_last()[x]).3 as int)
                        < uniq.len() && uniq[means.drop_last()[x].3 as int] && rest[i]
                        == means.drop_last()[x].0;
                assert(means.drop_last()[x] == means[x]);
                assert(x != n);
                assert(D::spec_optimized(means[x].0, means[n].0) > radius);
            } else {
                assert(whole[i] == c.0 && whole[j] == rest[j]);
                let x = choose|x: int|
                    0 <= x < means.drop_last().len() && ((means.drop_last()[x]).3 as int)
                        < uniq.len() && uniq[means.drop_last()[x].3 as int] && rest[j]
                        == means.drop_last()[x].0;
                assert(means.drop_last()[x] == means[x]);
                assert(x != n);
                assert(D::spec_optimized(means[n].0, means[x].0) > radius);
            }
        }
    }
}

/// In the position list `0 .. n` every position below `n` occurs exactly
/// once and nothing else occurs.
proof fn lemma_positions_count(n: nat, v: usize)
    requires
        n <= usize::MAX,
    ensures
        crate::index::spec_positions(n).to_multiset().count(v) == if (v as int) < n {
            1int
        } else {
            0int
        },
    decreases n,
{
    broadcast use vstd::seq_lib::group_to_multiset_ensures;
    broadcast use vstd::multiset::group_multiset_axioms;

    if n == 0 {
        assert(crate::index::spec_positions(0) =~= Seq::<usize>::empty());
        assert(Seq::<usize>::empty().to_multiset() =~= Multiset::<usize>::empty());
    } else {
        lemma_positions_count((n - 1) as nat, v);
        assert(crate::index::spec_positions(n) =~= crate::index::spec_positions(
            (n - 1) as nat,
        ).push((n - 1) as usize));
    }
}

/// A sequence whose multiset is that of `0 .. n` has pairwise distinct
/// elements, all below `n`.
proof fn lemma_permutation_distinct(s: Seq<usize>, n: nat)
    requires
        n <= usize::MAX,
        s.to_multiset() == crate::index::spec_positions(n).to_multiset(),
    ensures
        forall|i: int, j: int| 0 <= i < j < s.len() ==> s[i] != s[j],
        forall|i: int| 0 <= i < s.len() ==> (#[trigger] s[i] as int) < n,
{
    broadcast use vstd::seq_lib::group_to_multiset_ensures;
    broadcast use vstd::multiset::group_multiset_axioms;

    assert forall|i: int| 0 <= i < s.len() implies (#[trigger] s[i] as int) < n by {
        assert(s.contains(s[i]));
        assert(s.to_multiset().count(s[i]) > 0);
        lemma_positions_count(n, s[i]);
    }
    assert forall|i: int, j: int| 0 <= i < j < s.len() implies s[i] != s[j] by {
        if s[i] == s[j] {
            let v = s[i];
            lemma_positions_count(n, v);
            assert(s.to_multiset().count(v) == 1);
            broadcast use vstd::seq_lib::to_multiset_remove;

            let s2 = s.remove(i);
            assert(s2.to_multiset() == s.to_multiset().remove(v));
            assert(s2[j - 1] == s[j]);
            assert(s2.contains(v));
            assert(s2.to_multiset().count(v) > 0);
            assert(s.to_multiset().count(v) >= 2);
        }
    }
}

/// Every deduplicated candidate is one of the sorted candidates.
proof fn lemma_dedup_membership(s: Seq<(Seq<i64>, usize, usize, usize)>)
    ensures
        spec_dedup(s).len() <= s.len(),
        forall|i: int|
            0 <= i < spec_dedup(s).len() ==> exists|x: int|
                0 <= x < s.len() && #[trigger] spec_dedup(s)[i] == s[x],
    decreases s.len(),
{
    if s.len() > 1 {
        lemma_dedup_membership(s.drop_last());
        let rest = spec_dedup(s.drop_last());
        let whole = spec_dedup(s);
        assert forall|i: int| 0 <= i < whole.len() implies exists|x: int|
            0 <= x < s.len() && #[trigger] whole[i] == s[x] by {
            if i < rest.len() {
                assert(whole[i] == rest[i]);
                let x = choose|x: int| 0 <= x < s.drop_last().len() && rest[i] == s.drop_last()[x];
                assert(s.drop_last()[x] == s[x]);
            } else {
                assert(whole[i] == s.last());
                assert(whole[i] == s[s.len() - 1]);
            }
        }
    } else if s.len() == 1 {
        assert(spec_dedup(s) == s);
        assert(spec_dedup(s)[0] == s[0]);
    }
}

/// Deduplication keeps identifiers pairwise distinct.
proof fn lemma_dedup_distinct(s: Seq<(Seq<i64>, usize, usize, usize)>)
    requires
        forall|x: int, y: int|
            0 <= x < y < s.len() ==> (#[trigger] s[x]).3 != (#[trigger] s[y]).3,
    ensures
        forall|x: int, y: int|
            0 <= x < y < spec_dedup(s).len() ==> (#[trigger] spec_dedup(s)[x]).3 != (
            #[trigger] spec_dedup(s)[y]).3,
    decreases s.len(),
{
    if s.len() > 1 {
        lemma_dedup_distinct(s.drop_last());
        lemma_dedup_membership(s.drop_last());
        let rest = spec_dedup(s.drop_last());
        let whole = spec_dedup(s);
        assert forall|x: int, y: int|
            0 <= x < y < whole.len() implies (#[trigger] whole[x]).3 != (#[trigger] whole[y]).3 by {
            if y < rest.len() {
                assert(whole[x] == rest[x] && whole[y] == rest[y]);
            } else if y == rest.len() && whole.len() > rest.len() {
                assert(whole[y] == s.last());
                assert(whole[x] == rest[x]);
                let w = choose|w: int| 0 <= w < s.drop_last().len() && rest[x] == s.drop_last()[w];
                assert(s.drop_last()[w] == s[w]);
                assert(s[w].3 != s[s.len() - 1].3);
            }
        }
    }
}

/// The sorted candidate list: a permutation of the input whose
/// identifiers are pairwise distinct, with every row intact.
proof fn lemma_sorted_cands_props(cs: Seq<(Seq<i64>, usize, usize, usize)>, d: int)
    requires
        cands_wf(cs, d),
    ensures
        spec_sorted_cands(cs).len() == cs.len(),
        forall|t: int|
            0 <= t < cs.len() ==> (#[trigger] spec_sorted_cands(cs)[t]).0.len() == d && row_ok(
                spec_sorted_cands(cs)[t].0,
            ) && spec_sorted_cands(cs)[t].1 >= 1 && (spec_sorted_cands(cs)[t].3 as int) < cs.len(),
        forall|x: int, y: int|
            0 <= x < y < cs.len() ==> (#[trigger] spec_sorted_cands(cs)[x]).3 != (
            #[trigger] spec_sorted_cands(cs)[y]).3,
{
    let leq = |p: usize, q: usize| cand_le(cs, p, q);
    lemma_cand_le_total_ordering(cs, d, leq);
    crate::index::spec_positions(cs.len()).lemma_sort_by_ensures(leq);
    let pos = spec_sorted_cand_positions(cs);
    lemma_permutation_distinct(pos, cs.len());
    assert(pos.len() == cs.len()) by {
        broadcast use vstd::seq_lib::group_to_multiset_ensures;
        broadcast use vstd::seq_lib::to_multiset_len;

        assert(pos.to_multiset().len() == crate::index::spec_positions(
            cs.len(),
        ).to_multiset().len());
    }
    assert forall|t: int|
        0 <= t < cs.len() implies (#[trigger] spec_sorted_cands(cs)[t]).0.len() == d && row_ok(
        spec_sorted_cands(cs)[t].0,
    ) && spec_sorted_cands(cs)[t].1 >= 1 && (spec_sorted_cands(cs)[t].3 as int) < cs.len() by {
        assert(spec_sorted_cands(cs)[t] == cs[pos[t] as int]);
        assert(cs[pos[t] as int].3 == pos[t] as int);
    }
    assert forall|x: int, y: int|
        0 <= x < y < cs.len() implies (#[trigger] spec_sorted_cands(cs)[x]).3 != (
    #[trigger] spec_sorted_cands(cs)[y]).3 by {
        assert(spec_sorted_cands(cs)[x] == cs[pos[x] as int]);
        assert(spec_sorted_cands(cs)[y] == cs[pos[y] as int]);
        assert(cs[pos[x] as int].3 == pos[x] as int);
        assert(cs[pos[y] as int].3 == pos[y] as int);
    }
}

/// After collection, distinct cluster centers are separated by more than
/// one bandwidth in the optimized domain, and every center is a candidate
/// mean.
pub proof fn lemma_collect_separation<D: DistanceMeasure>(
    cs: Seq<(Seq<i64>, usize, usize, usize)>,
    d: int,
    bw: int,
)
    requires
        cands_wf(cs, d),
    ensures
        forall|i: int|
            0 <= i < spec_collect::<D>(cs, bw).len() ==> (#[trigger] spec_collect::<D>(
                cs,
                bw,
            )[i]).len() == d && row_ok(spec_collect::<D>(cs, bw)[i]),
        forall|i: int, j: int|
            0 <= i < spec_collect::<D>(cs, bw).len() && 0 <= j < spec_collect::<D>(cs, bw).len()
                && i != j ==> D::spec_optimized(
                #[trigger] spec_collect::<D>(cs, bw)[i],
                #[trigger] spec_collect::<D>(cs, bw)[j],
            ) > spec_radius(bw, D::squared()),
{
    let sorted = spec_sorted_cands(cs);
    let dd = spec_dedup(sorted);
    let tpoints = dd.map(|t: int, c: (Seq<i64>, usize, usize, usize)| c.0);
    let tids = dd.map(|t: int, c: (Seq<i64>, usize, usize, usize)| c.3);
    let uniq0 = Seq::new(cs.len(), |t: int| true);
    let uniq = spec_nms_loop::<D>(dd, tpoints, tids, bw, uniq0, 0);
    lemma_sorted_cands_props(cs, d);
    lemma_dedup_distinct(sorted);
    lemma_dedup_membership(sorted);
    assert forall|x: int| 0 <= x < dd.len() implies ((#[trigger] dd[x]).3 as int) < uniq0.len()
        && dd[x].0.len() == d && row_ok(dd[x].0) by {
        let w = choose|w: int| 0 <= w < sorted.len() && dd[x] == sorted[w];
        assert(sorted[w].0.len() == d && row_ok(sorted[w].0) && (sorted[w].3 as int) < cs.len());
    }
    lemma_nms_separation::<D>(dd, tpoints, tids, bw, uniq0, 0);
    lemma_filter_separation::<D>(dd, uniq, spec_radius(bw, D::squared()));
    assert forall|i: int|
        0 <= i < spec_collect::<D>(cs, bw).len() implies (#[trigger] spec_collect::<D>(
        cs,
        bw,
    )[i]).len() == d && row_ok(spec_collect::<D>(cs, bw)[i]) by {
        let x = choose|x: int|
            0 <= x < dd.len() && ((dd[x]).3 as int) < uniq.len() && uniq[dd[x].3 as int]
                && spec_filter_unique(dd, uniq)[i] == dd[x].0;
    }
}

/// Compare two equally long rows lexicographically.
fn lex_cmp_rows(a: &Vec<i64>, b: &Vec<i64>) -> (r: core::cmp::Ordering)
    requires
        a@.len() == b@.len(),
    ensures
        r == spec_lex_cmp(a@, b@),
{
    crate::utils::SliceComp::slice_cmp(a, b)
}

/// Whether candidate position `p` sorts no later than position `q`.
fn cand_le_exec(cands: &Vec<Candidate>, p: usize, q: usize) -> (r: bool)
    requires
        exists|d: int| cands_wf(cands.deep_view(), d),
        p < cands@.len(),
        q < cands@.len(),
    ensures
        r == cand_le(cands.deep_view(), p, q),
{
    let ghost cs = cands.deep_view();
    proof {
        assert(cs[p as int].0 =~= cands@[p as int].0@);
        assert(cs[q as int].0 =~= cands@[q as int].0@);
        let d = choose|d: int| cands_wf(cands.deep_view(), d);
        assert(cs[p as int].0.len() == d && cs[q as int].0.len() == d);
    }
    let sp = cands[p].1;
    let sq = cands[q].1;
    if sp != sq {
        sp > sq
    } else {
        match lex_cmp_rows(&cands[p].0, &cands[q].0) {
            core::cmp::Ordering::Greater => true,
            core::cmp::Ordering::Less => false,
            core::cmp::Ordering::Equal => p <= q,
        }
    }
}

/// Whether two equally long rows hold the same coordinates.
fn rows_equal(a: &Vec<i64>, b: &Vec<i64>) -> (r: bool)
    requires
        a@.len() == b@.len(),
    ensures
        r == (a@ == b@),
{
    let n = a.len();
    let mut i: usize = 0;
    while i < n
        invariant
            n == a@.len() == b@.len(),
            0 <= i <= n,
            forall|j: int| 0 <= j < i ==> a@[j] == b@[j],
        decreases n - i,
    {
        if a[i] != b[i] {
            proof {
                assert(a@[i as int] != b@[i as int]);
            }
            return false;
        }
        i += 1;
    }
    proof {
        assert(a@ =~= b@);
    }
    true
}

/// Marking one more identifier extends the walk by one guarded update.
proof fn lemma_mark_ids_snoc(uniq: Seq<bool>, ids: Seq<usize>, x: usize)
    ensures
        mark_ids(uniq, ids.push(x)) == (if (x as int) < mark_ids(uniq, ids).len() {
            mark_ids(uniq, ids).update(x as int, false)
        } else {
            mark_ids(uniq, ids)
        }),
    decreases ids.len(),
{
    lemma_mark_ids_len(uniq, ids);
    if ids.len() == 0 {
        let u2x = if (x as int) < uniq.len() {
            uniq.update(x as int, false)
        } else {
            uniq
        };
        assert(ids.push(x)[0] == x);
        assert(ids.push(x).skip(1) =~= Seq::<usize>::empty());
        assert(mark_ids(uniq, ids.push(x)) == mark_ids(u2x, ids.push(x).skip(1)));
        assert(mark_ids(u2x, ids.push(x).skip(1)) == u2x);
        assert(mark_ids(uniq, ids) == uniq);
    } else {
        let u2 = if (ids[0] as int) < uniq.len() {
            uniq.update(ids[0] as int, false)
        } else {
            uniq
        };
        lemma_mark_ids_snoc(u2, ids.skip(1), x);
        lemma_mark_ids_len(u2, ids.skip(1));
        assert(ids.push(x)[0] == ids[0]);
        assert(ids.push(x).skip(1) =~= ids.skip(1).push(x));
        assert(mark_ids(uniq, ids.push(x)) == mark_ids(u2, ids.push(x).skip(1)));
        assert(mark_ids(u2, ids.push(x).skip(1)) == mark_ids(u2, ids.skip(1).push(x)));
        assert(mark_ids(uniq, ids) == mark_ids(u2, ids.skip(1)));
    }
}

/// Marking preserves the length.
proof fn lemma_mark_ids_len(uniq: Seq<bool>, ids: Seq<usize>)
    ensures
        mark_ids(uniq, ids).len() == uniq.len(),
    decreases ids.len(),
{
    if ids.len() != 0 {
        let u2 = if (ids[0] as int) < uniq.len() {
            uniq.update(ids[0] as int, false)
        } else {
            uniq
        };
        lemma_mark_ids_len(u2, ids.skip(1));
    }
}

/// Sort the candidate positions; an insertion sort mirroring the stable
/// sort of the candidates by descending support and descending mean.
pub fn sort_cand_positions(cands: &Vec<Candidate>, Ghost(d): Ghost<int>) -> (r: Vec<usize>)
    requires
        cands_wf(cands.deep_view(), d),
    ensures
        r@ == spec_sorted_cand_positions(cands.deep_view()),
        r@.len() == cands.deep_view().len(),
        forall|t: int| 0 <= t < r@.len() ==> (#[trigger] r@[t]) < cands.deep_view().len(),
{
    let ghost cs = cands.deep_view();
    let ghost leq = |p: usize, q: usize| cand_le(cs, p, q);
    proof {
        lemma_cand_le_total_ordering(cs, d, leq);
        assert forall|i: int| 0 <= i < cs.len() implies (#[trigger] cs[i]).0 =~= cands@[i].0@
            && cs[i].1 == cands@[i].1 by {}
    }
    let n = cands.len();
    let mut r: Vec<usize> = Vec::new();
    proof {
        assert(r@ =~= crate::index::spec_positions(0));
        assert(r@.to_multiset() =~= crate::index::spec_positions(0).to_multiset());
    }
    let mut i: usize = 0;
    while i < n
        invariant
            n == cands@.len(),
            cs == cands.deep_view(),
            cs.len() == n,
            cands_wf(cs, d),
            leq == (|p: usize, q: usize| cand_le(cs, p, q)),
            vstd::relations::total_ordering(leq),
            forall|t: int| 0 <= t < cs.len() ==> (#[trigger] cs[t]).0 == cands@[t].0@,
            0 <= i <= n,
            r@.len() == i,
            forall|t: int| 0 <= t < i ==> (#[trigger] r@[t]) < i,
            vstd::relations::sorted_by(r@, leq),
            r@.to_multiset() == crate::index::spec_positions(i as nat).to_multiset(),
        decreases n - i,
    {
        let mut idx: usize = 0;
        while idx < i && cand_le_exec(cands, r[idx], i)
            invariant
                n == cands@.len(),
                cs == cands.deep_view(),
                cs.len() == n,
                cands_wf(cs, d),
                leq == (|p: usize, q: usize| cand_le(cs, p, q)),
                vstd::relations::total_ordering(leq),
                forall|t: int| 0 <= t < cs.len() ==> (#[trigger] cs[t]).0 == cands@[t].0@,
                0 <= i < n,
                r@.len() == i,
                forall|t: int| 0 <= t < i ==> (#[trigger] r@[t]) < i,
                0 <= idx <= i,
                forall|t: int| 0 <= t < idx ==> leq(#[trigger] r@[t], i as usize),
            decreases i - idx,
        {
            idx += 1;
        }
        proof {
            let old_r = r@;
            let new_r = r@.insert(idx as int, i as usize);
            let ii = idx as int;
            if ii < old_r.len() {
                let p = old_r[ii];
                assert(!leq(p, i as usize));
                assert(leq(i as usize, p));
            }
            assert forall|x: int, y: int| 0 <= x < y < new_r.len() implies leq(
                new_r[x],
                new_r[y],
            ) by {
                if y < ii {
                    assert(new_r[x] == old_r[x] && new_r[y] == old_r[y]);
                } else if x < ii && y == ii {
                    assert(new_r[x] == old_r[x] && new_r[y] == i as usize);
                } else if x < ii && y > ii {
                    assert(new_r[x] == old_r[x] && new_r[y] == old_r[y - 1]);
                } else if x == ii {
                    assert(new_r[x] == i as usize && new_r[y] == old_r[y - 1]);
                    assert(leq(i as usize, old_r[ii]));
                    if y - 1 > ii {
                        assert(leq(old_r[ii], old_r[y - 1]));
                    }
                } else {
                    assert(new_r[x] == old_r[x - 1] && new_r[y] == old_r[y - 1]);
                }
            }
            broadcast use vstd::seq_lib::to_multiset_insert;

            assert(crate::index::spec_positions((i + 1) as nat) =~= crate::index::spec_positions(
                i as nat,
            ).push(i as usize));
            assert(crate::index::spec_positions((i + 1) as nat).to_multiset()
                == crate::index::spec_positions(i as nat).to_multiset().insert(i as usize)) by {
                broadcast use vstd::seq_lib::to_multiset_build;

            }
        }
        r.insert(idx, i);
        i += 1;
    }
    proof {
        crate::index::spec_positions(n as nat).lemma_sort_by_ensures(leq);
        vstd::seq_lib::lemma_sorted_unique(
            r@,
            crate::index::spec_positions(n as nat).sort_by(leq),
            leq,
        );
        assert(r@ =~= crate::index::spec_positions(n as nat).sort_by(leq));
        assert(r@ == spec_sorted_cand_positions(cs));
    }
    r
}


/// The mode collector: sort the candidates by priority, drop consecutive
/// duplicates, suppress every candidate within one bandwidth of a kept
/// one, and return the surviving means in order.
pub fn collect_means<D: DistanceMeasure>(
    cands: &Vec<Candidate>,
    bandwidth: i64,
    dim: usize,
) -> (r: Vec<Vec<i64>>)
    requires
        cands_wf(cands.deep_view(), dim as int),
        0 <= bandwidth <= BANDWIDTH_LIMIT,
    ensures
        r.deep_view() == spec_collect::<D>(cands.deep_view(), bandwidth as int),
{
    let ghost cs = cands.deep_view();
    let ghost sorted_dv = spec_sorted_cands(cs);
    let n = cands.len();
    let m_total = n;
    proof {
        assert forall|i: int| 0 <= i < cs.len() implies (#[trigger] cs[i]).0 =~= cands@[i].0@
            && cs[i].1 == cands@[i].1 && cs[i].2 == cands@[i].2 && cs[i].3 == cands@[i].3 by {}
    }
    let pos = sort_cand_positions(cands, Ghost(dim as int));
    // Gather the candidates in sorted order.
    let mut sorted_c: Vec<Candidate> = Vec::new();
    let mut t: usize = 0;
    while t < n
        invariant
            n == cands@.len(),
            cs == cands.deep_view(),
            cs.len() == n,
            cands_wf(cs, dim as int),
            sorted_dv == spec_sorted_cands(cs),
            forall|i: int|
                0 <= i < cs.len() ==> (#[trigger] cs[i]).0 == cands@[i].0@ && cs[i].1
                    == cands@[i].1 && cs[i].2 == cands@[i].2 && cs[i].3 == cands@[i].3,
            pos@ == spec_sorted_cand_positions(cs),
            pos@.len() == n,
            forall|u: int| 0 <= u < n ==> (#[trigger] pos@[u]) < n,
            0 <= t <= n,
            sorted_c@.len() == t,
            forall|u: int|
                0 <= u < t ==> (#[trigger] sorted_c@[u]).0@ == sorted_dv[u].0 && sorted_c@[u].1
                    == sorted_dv[u].1 && sorted_c@[u].2 == sorted_dv[u].2 && sorted_c@[u].3
                    == sorted_dv[u].3,
        decreases n - t,
    {
        let p = pos[t];
        proof {
            assert(sorted_dv[t as int] == cs[pos@[t as int] as int]);
        }
        let row = clone_row(&cands[p].0);
        let c = (row, cands[p].1, cands[p].2, cands[p].3);
        sorted_c.push(c);
        t += 1;
    }
    proof {
        assert(sorted_c.deep_view() =~~= sorted_dv);
        lemma_sorted_cands_props(cs, dim as int);
        lemma_dedup_membership(sorted_dv);
    }
    let ghost dd_dv = spec_dedup(sorted_dv);
    // Drop consecutive duplicate means, keeping the first of each run.
    let mut ded: Vec<Candidate> = Vec::new();
    let mut i: usize = 0;
    while i < n
        invariant
            n == sorted_c@.len(),
            cs.len() == n,
            cands_wf(cs, dim as int),
            sorted_dv == spec_sorted_cands(cs),
            sorted_c.deep_view() == sorted_dv,
            forall|u: int|
                0 <= u < n ==> (#[trigger] sorted_c@[u]).0@ == sorted_dv[u].0 && sorted_c@[u].1
                    == sorted_dv[u].1 && sorted_c@[u].2 == sorted_dv[u].2 && sorted_c@[u].3
                    == sorted_dv[u].3,
            forall|u: int|
                0 <= u < n ==> (#[trigger] sorted_dv[u]).0.len() == dim && row_ok(sorted_dv[u].0)
                    && (sorted_dv[u].3 as int) < n,
            0 <= i <= n,
            ded.deep_view() == spec_dedup(sorted_dv.take(i as int)),
            forall|u: int|
                0 <= u < ded@.len() ==> (#[trigger] ded@[u]).0@.len() == dim && row_ok(ded@[u].0@)
                    && (ded@[u].3 as int) < n,
        decreases n - i,
    {
        proof {
            assert(sorted_dv.take(i + 1).drop_last() =~= sorted_dv.take(i as int));
            assert(sorted_dv.take(i + 1).last() == sorted_dv[i as int]);
        }
        let keep = if i == 0 {
            true
        } else {
            proof {
                assert(sorted_dv.take(i + 1)[i - 1] == sorted_dv[i - 1]);
                assert(sorted_c@[i as int].0@.len() == dim);
                assert(sorted_c@[i - 1].0@.len() == dim);
            }
            !rows_equal(&sorted_c[i].0, &sorted_c[i - 1].0)
        };
        if keep {
            let row = clone_row(&sorted_c[i].0);
            let c = (row, sorted_c[i].1, sorted_c[i].2, sorted_c[i].3);
            ded.push(c);
            proof {
                assert(ded.deep_view() =~~= spec_dedup(sorted_dv.take(i + 1)));
            }
        } else {
            proof {
                assert(ded.deep_view() =~~= spec_dedup(sorted_dv.take(i + 1)));
            }
        }
        i += 1;
    }
    proof {
        assert(sorted_dv.take(n as int) =~= sorted_dv);
        assert(ded.deep_view() == dd_dv);
    }
    let m = ded.len();
    let ghost tpoints = dd_dv.map(|u: int, c: (Seq<i64>, usize, usize, usize)| c.0);
    let ghost tids = dd_dv.map(|u: int, c: (Seq<i64>, usize, usize, usize)| c.3);
    // Build the secondary index over the deduplicated means.
    let mut tree = SpatialIndex::new(dim);
    let mut b: usize = 0;
    while b < m
        invariant
            m == ded@.len(),
            dd_dv == ded.deep_view(),
            tpoints == dd_dv.map(|u: int, c: (Seq<i64>, usize, usize, usize)| c.0),
            tids == dd_dv.map(|u: int, c: (Seq<i64>, usize, usize, usize)| c.3),
            forall|u: int|
                0 <= u < m ==> (#[trigger] ded@[u]).0@.len() == dim && row_ok(ded@[u].0@) && (
                ded@[u].3 as int) < cs.len(),
            0 <= b <= m,
            tree.wf(),
            tree.spec_dim() == dim,
            tree.rows() =~= tpoints.take(b as int),
            tree.identifiers() =~= tids.take(b as int),
        decreases m - b,
    {
        proof {
            assert(dd_dv[b as int].0 =~= ded@[b as int].0@);
        }
        let row = clone_row(&ded[b].0);
        tree.add(row, ded[b].3);
        proof {
            assert(tree.rows() =~= tpoints.take(b + 1));
            assert(tree.identifiers() =~= tids.take(b + 1));
        }
        b += 1;
    }
    proof {
        assert(tree.rows() =~= tpoints);
        assert(tree.identifiers() =~= tids);
    }
    // All candidates start out unique.
    let ghost uniq0 = Seq::new(cs.len(), |u: int| true);
    let mut uniq: Vec<bool> = Vec::new();
    let mut v: usize = 0;
    while v < m_total
        invariant
            0 <= v <= m_total,
            uniq@.len() == v,
            forall|u: int| 0 <= u < v ==> uniq@[u] == true,
        decreases m_total - v,
    {
        uniq.push(true);
        v += 1;
    }
    proof {
        assert(uniq@ =~= uniq0);
    }
    // The suppression walk.
    let threshold = radius_threshold(bandwidth, D::is_squared());
    let ghost nms_goal = spec_nms_loop::<D>(dd_dv, tpoints, tids, bandwidth as int, uniq0, 0);
    let mut p: usize = 0;
    while p < m
        invariant
            m == ded@.len(),
            m_total == cs.len(),
            dd_dv == ded.deep_view(),
            tpoints == dd_dv.map(|u: int, c: (Seq<i64>, usize, usize, usize)| c.0),
            tids == dd_dv.map(|u: int, c: (Seq<i64>, usize, usize, usize)| c.3),
            forall|u: int|
                0 <= u < m ==> (#[trigger] ded@[u]).0@.len() == dim && row_ok(ded@[u].0@) && (
                ded@[u].3 as int) < cs.len(),
            tree.wf(),
            tree.spec_dim() == dim,
            tree.rows() == tpoints,
            tree.identifiers() == tids,
            0 <= bandwidth <= BANDWIDTH_LIMIT,
            threshold == spec_radius(bandwidth as int, D::squared()),
            0 <= p <= m,
            uniq@.len() == cs.len(),
            nms_goal == spec_nms_loop::<D>(
                dd_dv,
                tpoints,
                tids,
                bandwidth as int,
                uniq@,
                p as nat,
            ),
        decreases m - p,
    {
        let id = ded[p].3;
        proof {
            assert(dd_dv[p as int].3 == id);
            assert((id as int) < uniq@.len());
        }
        if uniq[id] {
            let ghost u_enter = uniq@;
            proof {
                assert(dd_dv[p as int].0 =~= ded@[p as int].0@);
            }
            let nbrs = tree.within_ids::<D>(&ded[p].0, threshold);
            let ghost nbrs_dv = spec_within_ids::<D>(
                tpoints,
                tids,
                dd_dv[p as int].0,
                spec_radius(bandwidth as int, D::squared()),
            );
            proof {
                assert(nbrs@ == nbrs_dv);
                assert(nbrs@.take(0) =~= Seq::<usize>::empty());
                assert(mark_ids(u_enter, nbrs@.take(0)) == u_enter);
            }
            let mut w: usize = 0;
            while w < nbrs.len()
                invariant
                    u_enter.len() == uniq@.len(),
                    0 <= w <= nbrs@.len(),
                    uniq@ == mark_ids(u_enter, nbrs@.take(w as int)),
                decreases nbrs@.len() - w,
            {
                proof {
                    lemma_mark_ids_len(u_enter, nbrs@.take(w as int));
                    lemma_mark_ids_snoc(u_enter, nbrs@.take(w as int), nbrs@[w as int]);
                    assert(nbrs@.take(w + 1) =~= nbrs@.take(w as int).push(nbrs@[w as int]));
                }
                let nb = nbrs[w];
                if nb < uniq.len() {
                    uniq.set(nb, false);
                }
                w += 1;
            }
            proof {
                assert(nbrs@.take(nbrs@.len() as int) =~= nbrs@);
                lemma_mark_ids_len(u_enter, nbrs@);
            }
            uniq.set(id, true);
            proof {
                assert(uniq@ == mark_ids(u_enter, nbrs_dv).update(id as int, true));
            }
        }
        p += 1;
    }
    proof {
        assert(nms_goal == spec_nms_loop::<D>(
            dd_dv,
            tpoints,
            tids,
            bandwidth as int,
            uniq@,
            m as nat,
        ));
        assert(nms_goal == uniq@);
    }
    // Keep the surviving means, in order.
    let mut centers: Vec<Vec<i64>> = Vec::new();
    let mut f: usize = 0;
    while f < m
        invariant
            m == ded@.len(),
            dd_dv == ded.deep_view(),
            forall|u: int|
                0 <= u < m ==> (#[trigger] ded@[u]).0@.len() == dim && row_ok(ded@[u].0@) && (
                ded@[u].3 as int) < uniq@.len(),
            0 <= f <= m,
            centers.deep_view() == spec_filter_unique(dd_dv.take(f as int), uniq@),
        decreases m - f,
    {
        proof {
            assert(dd_dv.take(f + 1).drop_last() =~= dd_dv.take(f as int));
            assert(dd_dv.take(f + 1).last() == dd_dv[f as int]);
            assert(dd_dv[f as int].3 == ded@[f as int].3);
        }
        let id = ded[f].3;
        if uniq[id] {
            let row = clone_row(&ded[f].0);
            centers.push(row);
            proof {
                assert(dd_dv[f as int].0 =~= ded@[f as int].0@);
                assert(centers.deep_view() =~~= spec_filter_unique(dd_dv.take(f + 1), uniq@));
            }
        } else {
            proof {
                assert(centers.deep_view() =~~= spec_filter_unique(dd_dv.take(f + 1), uniq@));
            }
        }
        f += 1;
    }
    proof {
        assert(dd_dv.take(m as int) =~= dd_dv);
        assert(centers.deep_view() == spec_filter_unique(dd_dv, nms_goal));
        assert(centers.deep_view() =~~= spec_collect::<D>(cs, bandwidth as int));
    }
    centers
}

} // verus!
