use vstd::prelude::*;

use crate::distance_measure::DistanceMeasure;
use crate::utils::row_ok;

verus! {

/// A spatial index over `(row, identifier)` pairs.  It answers radius
/// queries and k-nearest queries under an injected distance strategy, and
/// both answers are deterministic functions of the index contents and the
/// query, with ties broken by insertion order.
pub struct SpatialIndex {
    dim: usize,
    points: Vec<Vec<i64>>,
    ids: Vec<usize>,
}

impl SpatialIndex {
    /// The rows in insertion order.
    pub closed spec fn rows(&self) -> Seq<Seq<i64>> {
        self.points.deep_view()
    }

    /// The identifiers in insertion order.
    pub closed spec fn identifiers(&self) -> Seq<usize> {
        self.ids@
    }

    /// The dimension every stored row has.
    pub closed spec fn spec_dim(&self) -> int {
        self.dim as int
    }

    /// The index is consistent: rows and identifiers correspond pairwise
    /// and every row has the index's dimension and bounded coordinates.
    pub closed spec fn wf(&self) -> bool {
        &&& self.rows().len() == self.identifiers().len()
        &&& forall|i: int|
            0 <= i < self.rows().len() ==> (#[trigger] self.rows()[i]).len() == self.spec_dim()
                && row_ok(self.rows()[i])
    }

    pub fn new(dim: usize) -> (r: Self)
        ensures
            r.wf(),
            r.rows() == Seq::<Seq<i64>>::empty(),
            r.identifiers() == Seq::<usize>::empty(),
            r.spec_dim() == dim,
    {
        let r = Self { dim, points: Vec::new(), ids: Vec::new() };
        proof {
            assert(r.rows() =~= Seq::<Seq<i64>>::empty());
        }
        r
    }

    /// Number of stored rows.
    pub fn len(&self) -> (n: usize)
        requires
            self.wf(),
        ensures
            n == self.rows().len(),
    {
        self.points.len()
    }

    /// Insert a row under an identifier.
    pub fn add(&mut self, point: Vec<i64>, id: usize)
        requires
            old(self).wf(),
            point@.len() == old(self).spec_dim(),
            row_ok(point@),
        ensures
            final(self).wf(),
            final(self).rows() == old(self).rows().push(point@),
            final(self).identifiers() == old(self).identifiers().push(id),
            final(self).spec_dim() == old(self).spec_dim(),
    {
        self.points.push(point);
        self.ids.push(id);
        proof {
            assert(self.rows() =~~= old(self).rows().push(point@));
        }
    }

    /// The identifiers of all rows whose optimized distance to the query
    /// is at most the threshold, in insertion order.
    pub fn within_ids<D: DistanceMeasure>(&self, q: &Vec<i64>, threshold: i128) -> (r: Vec<usize>)
        requires
            self.wf(),
            q@.len() == self.spec_dim(),
            row_ok(q@),
        ensures
            r@ == spec_within_ids::<D>(self.rows(), self.identifiers(), q@, threshold as int),
    {
        let n = self.points.len();
        let mut r: Vec<usize> = Vec::new();
        let mut i: usize = 0;
        while i < n
            invariant
                self.wf(),
                q@.len() == self.spec_dim(),
                row_ok(q@),
                n == self.rows().len(),
                0 <= i <= n,
                r@ == spec_within_ids::<D>(
                    self.rows().take(i as int),
                    self.identifiers().take(i as int),
                    q@,
                    threshold as int,
                ),
            decreases n - i,
        {
            proof {
                assert(self.rows().take(i + 1).drop_last() =~= self.rows().take(i as int));
                assert(self.identifiers().take(i + 1).drop_last() =~= self.identifiers().take(
                    i as int,
                ));
                assert(self.rows().take(i + 1).last() == self.rows()[i as int]);
                assert(self.rows()[i as int] =~= self.points@[i as int]@);
            }
            let d = D::optimized(q, &self.points[i]);
            if d <= threshold {
                r.push(self.ids[i]);
            }
            i += 1;
        }
        proof {
            assert(self.rows().take(n as int) =~= self.rows());
            assert(self.identifiers().take(n as int) =~= self.identifiers());
        }
        r
    }

    /// The `k` nearest rows to the query: pairs of optimized distance and
    /// identifier, sorted by distance ascending with ties broken by
    /// insertion order.
    pub fn k_nearest<D: DistanceMeasure>(&self, q: &Vec<i64>, k: usize) -> (r: Vec<(i128, usize)>)
        requires
            self.wf(),
            q@.len() == self.spec_dim(),
            row_ok(q@),
        ensures
            r@ == spec_k_nearest::<D>(self.rows(), self.identifiers(), q@, k as int),
    {
        let n = self.points.len();
        let ghost ds = spec_dists::<D>(self.rows(), q@);
        let mut dvec: Vec<i128> = Vec::new();
        let mut i: usize = 0;
        while i < n
            invariant
                self.wf(),
                q@.len() == self.spec_dim(),
                row_ok(q@),
                n == self.rows().len(),
                ds == spec_dists::<D>(self.rows(), q@),
                0 <= i <= n,
                dvec@.len() == i,
                forall|j: int| 0 <= j < i ==> dvec@[j] == ds[j],
            decreases n - i,
        {
            proof {
                assert(self.rows()[i as int] =~= self.points@[i as int]@);
            }
            let d = D::optimized(q, &self.points[i]);
            dvec.push(d);
            i += 1;
        }
        let pos = sort_positions(&dvec);
        proof {
            assert(dvec@.map_values(|d: i128| d as int) =~= ds);
        }
        let kk = if k < n {
            k
        } else {
            n
        };
        let mut r: Vec<(i128, usize)> = Vec::new();
        let mut j: usize = 0;
        while j < kk
            invariant
                self.wf(),
                n == self.rows().len(),
                ds == spec_dists::<D>(self.rows(), q@),
                dvec@.len() == n,
                forall|t: int| 0 <= t < n ==> dvec@[t] == ds[t],
                pos@ == spec_sorted_positions(ds),
                pos@.len() == n,
                forall|t: int| 0 <= t < n ==> (#[trigger] pos@[t]) < n,
                kk == if k < n {
                    k as int
                } else {
                    n as int
                },
                0 <= j <= kk,
                r@.len() == j,
                forall|t: int|
                    0 <= t < j ==> #[trigger] r@[t] == (
                        ds[pos@[t] as int] as i128,
                        self.identifiers()[pos@[t] as int],
                    ),
            decreases kk - j,
        {
            let p = pos[j];
            r.push((dvec[p], self.ids[p]));
            j += 1;
        }
        proof {
            let spec_r = spec_k_nearest::<D>(self.rows(), self.identifiers(), q@, k as int);
            assert(r@ =~= spec_r);
        }
        r
    }
}

/// The identifiers of the rows within the threshold, in order.
pub open spec fn spec_within_ids<D: DistanceMeasure>(
    points: Seq<Seq<i64>>,
    ids: Seq<usize>,
    q: Seq<i64>,
    thr: int,
) -> Seq<usize>
    decreases points.len(),
{
    if points.len() == 0 {
        Seq::empty()
    } else {
        let rest = spec_within_ids::<D>(points.drop_last(), ids.drop_last(), q, thr);
        if D::spec_optimized(q, points.last()) <= thr {
            rest.push(ids.last())
        } else {
            rest
        }
    }
}

/// The optimized distance from the query to every row, by position.
pub open spec fn spec_dists<D: DistanceMeasure>(points: Seq<Seq<i64>>, q: Seq<i64>) -> Seq<int> {
    Seq::new(points.len(), |i: int| D::spec_optimized(q, points[i]))
}

/// Position `p` comes no later than position `q`: its distance is smaller,
/// or equal with `p` inserted earlier.
pub open spec fn dist_le(ds: Seq<int>, p: usize, q: usize) -> bool {
    ds[p as int] < ds[q as int] || (ds[p as int] == ds[q as int] && p <= q)
}

/// The positions `0 .. n`.
pub open spec fn spec_positions(n: nat) -> Seq<usize> {
    Seq::new(n, |i: int| i as usize)
}

/// All positions, sorted by distance ascending with insertion order as the
/// tie break.
pub open spec fn spec_sorted_positions(ds: Seq<int>) -> Seq<usize> {
    spec_positions(ds.len()).sort_by(|p: usize, q: usize| dist_le(ds, p, q))
}

/// The k-nearest answer: distance/identifier pairs for the first `k`
/// sorted positions.
pub open spec fn spec_k_nearest<D: DistanceMeasure>(
    points: Seq<Seq<i64>>,
    ids: Seq<usize>,
    q: Seq<i64>,
    k: int,
) -> Seq<(i128, usize)> {
    let ds = spec_dists::<D>(points, q);
    let kk = if k < points.len() {
        k
    } else {
        points.len() as int
    };
    spec_sorted_positions(ds).take(kk).map(
        |t: int, p: usize| (ds[p as int] as i128, ids[p as int]),
    )
}

/// Sort the positions `0 .. ds.len()` by distance ascending, breaking ties
/// by position; an insertion sort.
fn sort_positions(dvec: &Vec<i128>) -> (r: Vec<usize>)
    ensures
        r@ == spec_sorted_positions(dvec@.map_values(|d: i128| d as int)),
        r@.len() == dvec@.len(),
        forall|t: int| 0 <= t < r@.len() ==> (#[trigger] r@[t]) < dvec@.len(),
{
    let ghost ds = dvec@.map_values(|d: i128| d as int);
    let ghost leq = |p: usize, q: usize| dist_le(ds, p, q);
    let n = dvec.len();
    let mut r: Vec<usize> = Vec::new();
    proof {
        assert(r@ =~= spec_positions(0));
        assert(r@.to_multiset() =~= spec_positions(0).to_multiset());
    }
    let mut i: usize = 0;
    while i < n
        invariant
            n == dvec@.len(),
            ds == dvec@.map_values(|d: i128| d as int),
            leq == (|p: usize, q: usize| dist_le(ds, p, q)),
            0 <= i <= n,
            r@.len() == i,
            forall|t: int| 0 <= t < i ==> (#[trigger] r@[t]) < i,
            vstd::relations::sorted_by(r@, leq),
            r@.to_multiset() == spec_positions(i as nat).to_multiset(),
        decreases n - i,
    {
        let di = dvec[i];
        let mut idx: usize = 0;
        while idx < i && dvec[r[idx]] <= di
            invariant
                n == dvec@.len(),
                di == dvec@[i as int],
                0 <= i < n,
                r@.len() == i,
                forall|t: int| 0 <= t < i ==> (#[trigger] r@[t]) < i,
                0 <= idx <= i,
                forall|t: int| 0 <= t < idx ==> dvec@[(#[trigger] r@[t]) as int] <= dvec@[i as int],
            decreases i - idx,
        {
            idx += 1;
        }
        proof {
            broadcast use vstd::seq_lib::to_multiset_insert;

            let old_r = r@;
            let new_r = r@.insert(idx as int, i as usize);
            assert forall|x: int, y: int| 0 <= x < y < new_r.len() implies leq(
                new_r[x],
                new_r[y],
            ) by {
                let ii = idx as int;
                if y < ii {
                    assert(new_r[x] == old_r[x] && new_r[y] == old_r[y]);
                    assert(vstd::relations::sorted_by(old_r, leq));
                } else if x < ii && y == ii {
                    assert(new_r[x] == old_r[x] && new_r[y] == i as usize);
                    assert(ds[old_r[x] as int] <= ds[i as int]);
                } else if x < ii && y > ii {
                    assert(new_r[x] == old_r[x] && new_r[y] == old_r[y - 1]);
                    assert(vstd::relations::sorted_by(old_r, leq));
                    if ii < old_r.len() {
                        assert(ds[i as int] < ds[old_r[ii] as int]);
                        if y - 1 > ii {
                            assert(leq(old_r[ii], old_r[y - 1]));
                        }
                    }
                } else if x == ii {
                    assert(new_r[x] == i as usize && new_r[y] == old_r[y - 1]);
                    assert(ds[i as int] < ds[old_r[idx as int] as int]);
                    if y - 1 > ii {
                        assert(leq(old_r[ii], old_r[y - 1]));
                    }
                } else {
                    assert(new_r[x] == old_r[x - 1] && new_r[y] == old_r[y - 1]);
                    assert(vstd::relations::sorted_by(old_r, leq));
                }
            }
            assert(spec_positions((i + 1) as nat) =~= spec_positions(i as nat).push(i as usize));
            assert(spec_positions((i + 1) as nat).to_multiset() == spec_positions(
                i as nat,
            ).to_multiset().insert(i as usize)) by {
                broadcast use vstd::seq_lib::to_multiset_build;

            }
        }
        r.insert(idx, i);
        i += 1;
    }
    proof {
        lemma_dist_le_total_ordering(ds, leq);
        assert(spec_positions(n as nat).to_multiset() == r@.to_multiset());
        spec_positions(n as nat).lemma_sort_by_ensures(leq);
        vstd::seq_lib::lemma_sorted_unique(r@, spec_positions(n as nat).sort_by(leq), leq);
        assert(r@ =~= spec_positions(n as nat).sort_by(leq));
        assert(r@ == spec_sorted_positions(ds));
    }
    r
}

/// `dist_le` is a total ordering on positions.
proof fn lemma_dist_le_total_ordering(ds: Seq<int>, leq: spec_fn(usize, usize) -> bool)
    requires
        leq == (|p: usize, q: usize| dist_le(ds, p, q)),
    ensures
        vstd::relations::total_ordering(leq),
{
    assert forall|x: usize| #[trigger] leq(x, x) by {}
    assert forall|x: usize, y: usize| #[trigger] leq(x, y) && #[trigger] leq(y, x) implies x
        == y by {}
    assert forall|x: usize, y: usize, z: usize|
        #[trigger] leq(x, y) && #[trigger] leq(y, z) implies leq(x, z) by {}
    assert forall|x: usize, y: usize| #[trigger] leq(x, y) || #[trigger] leq(y, x) by {}
}


/// The sorted position list has one entry per row, each a valid position.
pub proof fn lemma_sorted_positions_props(ds: Seq<int>)
    ensures
        spec_sorted_positions(ds).len() == ds.len(),
        forall|t: int|
            0 <= t < ds.len() ==> (#[trigger] spec_sorted_positions(ds)[t] as int) < ds.len(),
{
    let leq = |p: usize, q: usize| dist_le(ds, p, q);
    lemma_dist_le_total_ordering(ds, leq);
    let positions = spec_positions(ds.len());
    positions.lemma_sort_by_ensures(leq);
    let sp = spec_sorted_positions(ds);
    assert(sp == positions.sort_by(leq));
    assert(sp.len() == ds.len()) by {
        broadcast use vstd::seq_lib::group_to_multiset_ensures;
        broadcast use vstd::seq_lib::to_multiset_len;

        assert(sp.to_multiset().len() == positions.to_multiset().len());
    }
    assert forall|t: int| 0 <= t < ds.len() implies (#[trigger] sp[t] as int) < ds.len() by {
        assert(sp.contains(sp[t]));
        if !positions.contains(sp[t]) {
            assert(!sp.contains(sp[t]));
        }
        let j = choose|j: int| 0 <= j < positions.len() && positions[j] == sp[t];
        assert(positions[j] == j as usize);
    }
}

} // verus!
