use vstd::prelude::*;

use crate::distance_measure::{
    below_threshold, radius_threshold, spec_below_threshold, spec_radius, DistanceMeasure,
};
use crate::index::{spec_within_ids, SpatialIndex};
use crate::utils::{row_ok, BANDWIDTH_LIMIT, ROWS_LIMIT};

verus! {

/// The iteration cap of the mode seeker.
pub const MAX_ITER: usize = 300;

/// A row of zeroes.
pub open spec fn zero_row(d: int) -> Seq<i64> {
    Seq::new(d as nat, |i: int| 0i64)
}

/// The dataset rows selected by a sequence of identifiers.
pub open spec fn select_rows(data: Seq<Seq<i64>>, ids: Seq<usize>) -> Seq<Seq<i64>> {
    Seq::new(ids.len(), |i: int| data[ids[i] as int])
}

/// One mode-seeking ascent, from the current mean onward: query the
/// neighbors within one bandwidth of the mean, move the mean to their
/// centroid, and stop when the move is below one thousandth of the
/// bandwidth or the iteration cap is reached.  The result is the final
/// mean, its support, and the number of completed iterations; a mean with
/// no neighbors gives support zero.
pub open spec fn spec_seek<D: DistanceMeasure>(
    data: Seq<Seq<i64>>,
    tpoints: Seq<Seq<i64>>,
    tids: Seq<usize>,
    bw: int,
    mean: Seq<i64>,
    iterations: nat,
) -> (Seq<i64>, int, int)
    decreases MAX_ITER - iterations,
{
    let nbr_ids = spec_within_ids::<D>(tpoints, tids, mean, spec_radius(bw, D::squared()));
    if nbr_ids.len() == 0 {
        (zero_row(mean.len() as int), 0, iterations as int)
    } else {
        let new_mean = D::spec_mean_of(select_rows(data, nbr_ids));
        if spec_below_threshold(D::spec_optimized(new_mean, mean), bw, D::squared())
            || iterations >= MAX_ITER {
            (new_mean, nbr_ids.len() as int, iterations as int)
        } else {
            spec_seek::<D>(data, tpoints, tids, bw, new_mean, iterations + 1)
        }
    }
}

/// The candidate mode grown from one seed row.
pub open spec fn spec_mean_shift_single<D: DistanceMeasure>(
    data: Seq<Seq<i64>>,
    tpoints: Seq<Seq<i64>>,
    tids: Seq<usize>,
    bw: int,
    seed: int,
) -> (Seq<i64>, int, int) {
    spec_seek::<D>(data, tpoints, tids, bw, data[seed], 0)
}

/// The seeker's iteration count never exceeds the cap.
pub proof fn lemma_seek_iterations_bounded<D: DistanceMeasure>(
    data: Seq<Seq<i64>>,
    tpoints: Seq<Seq<i64>>,
    tids: Seq<usize>,
    bw: int,
    mean: Seq<i64>,
    iterations: nat,
)
    requires
        iterations <= MAX_ITER,
    ensures
        iterations <= spec_seek::<D>(data, tpoints, tids, bw, mean, iterations).2 <= MAX_ITER,
    decreases MAX_ITER - iterations,
{
    let nbr_ids = spec_within_ids::<D>(tpoints, tids, mean, spec_radius(bw, D::squared()));
    if nbr_ids.len() != 0 {
        let new_mean = D::spec_mean_of(select_rows(data, nbr_ids));
        if !(spec_below_threshold(D::spec_optimized(new_mean, mean), bw, D::squared())
            || iterations >= MAX_ITER) {
            lemma_seek_iterations_bounded::<D>(data, tpoints, tids, bw, new_mean, iterations + 1);
        }
    }
}

/// The members of a radius query are identifiers stored in the index.
pub proof fn lemma_within_ids_members<D: DistanceMeasure>(
    points: Seq<Seq<i64>>,
    ids: Seq<usize>,
    q: Seq<i64>,
    thr: int,
)
    requires
        points.len() == ids.len(),
    ensures
        spec_within_ids::<D>(points, ids, q, thr).len() <= points.len(),
        forall|t: int|
            0 <= t < spec_within_ids::<D>(points, ids, q, thr).len() ==> ids.contains(
                #[trigger] spec_within_ids::<D>(points, ids, q, thr)[t],
            ),
    decreases points.len(),
{
    if points.len() > 0 {
        lemma_within_ids_members::<D>(points.drop_last(), ids.drop_last(), q, thr);
        let rest = spec_within_ids::<D>(points.drop_last(), ids.drop_last(), q, thr);
        let whole = spec_within_ids::<D>(points, ids, q, thr);
        let rest_ids = ids.drop_last();
        assert forall|t: int| 0 <= t < whole.len() implies ids.contains(#[trigger] whole[t]) by {
            if t < rest.len() {
                assert(whole[t] == rest[t]);
                assert(rest_ids.contains(rest[t]));
                let j = choose|j: int| 0 <= j < rest_ids.len() && rest_ids[j] == rest[t];
                assert(rest_ids[j] == ids[j]);
                assert(ids[j] == whole[t]);
            } else {
                assert(whole[t] == ids.last());
                assert(ids[ids.len() - 1] == whole[t]);
            }
        }
    }
}

/// Copy one row.
pub fn clone_row(v: &Vec<i64>) -> (r: Vec<i64>)
    ensures
        r@ == v@,
{
    let n = v.len();
    let mut r: Vec<i64> = Vec::new();
    let mut i: usize = 0;
    while i < n
        invariant
            n == v@.len(),
            0 <= i <= n,
            r@ =~= v@.take(i as int),
        decreases n - i,
    {
        r.push(v[i]);
        i += 1;
    }
    proof {
        assert(v@.take(n as int) =~= v@);
    }
    r
}

/// A row of zeroes of the given dimension.
fn zero_vec(d: usize) -> (r: Vec<i64>)
    ensures
        r@ == zero_row(d as int),
{
    let mut r: Vec<i64> = Vec::new();
    let mut i: usize = 0;
    while i < d
        invariant
            0 <= i <= d,
            r@.len() == i,
            forall|j: int| 0 <= j < i ==> r@[j] == 0i64,
        decreases d - i,
    {
        r.push(0);
        i += 1;
    }
    proof {
        assert(r@ =~= zero_row(d as int));
    }
    r
}

/// The dataset is well formed for seeking: rectangular with dimension `d`
/// and inside the machine limits.
pub open spec fn data_wf(data: Seq<Seq<i64>>, d: int) -> bool {
    &&& data.len() <= ROWS_LIMIT
    &&& forall|i: int| 0 <= i < data.len() ==> (#[trigger] data[i]).len() == d && row_ok(data[i])
}

/// The index holds rows of the dataset's dimension and every identifier it
/// stores points into the dataset.
pub open spec fn tree_wf_for(tree: SpatialIndex, data: Seq<Seq<i64>>, d: int) -> bool {
    &&& tree.wf()
    &&& tree.spec_dim() == d
    &&& tree.rows().len() == tree.identifiers().len() <= ROWS_LIMIT
    &&& forall|j: int|
        0 <= j < tree.identifiers().len() ==> (#[trigger] tree.identifiers()[j]) < data.len()
}

/// One mode-seeking ascent for the given seed.
pub fn mean_shift_single<D: DistanceMeasure>(
    data: &Vec<Vec<i64>>,
    tree: &SpatialIndex,
    seed: usize,
    bandwidth: i64,
) -> (r: (Vec<i64>, usize, usize))
    requires
        data_wf(data.deep_view(), data.deep_view()[0].len() as int),
        tree_wf_for(*tree, data.deep_view(), data.deep_view()[0].len() as int),
        seed < data.deep_view().len(),
        0 <= bandwidth <= BANDWIDTH_LIMIT,
    ensures
        ({
            let s = spec_mean_shift_single::<D>(
                data.deep_view(),
                tree.rows(),
                tree.identifiers(),
                bandwidth as int,
                seed as int,
            );
            &&& r.0@ == s.0
            &&& r.1 == s.1
            &&& r.2 == s.2
            &&& r.2 <= MAX_ITER
            &&& r.0@.len() == data.deep_view()[0].len()
            &&& row_ok(r.0@)
        }),
{
    let ghost dv = data.deep_view();
    let ghost d = data.deep_view()[0].len() as int;
    let ghost goal = spec_mean_shift_single::<D>(
        dv,
        tree.rows(),
        tree.identifiers(),
        bandwidth as int,
        seed as int,
    );
    proof {
        assert(dv[seed as int] =~= data@[seed as int]@);
    }
    let mut mean: Vec<i64> = clone_row(&data[seed]);
    let mut iterations: usize = 0;
    let threshold = radius_threshold(bandwidth, D::is_squared());
    loop
        invariant
            data_wf(dv, d),
            tree_wf_for(*tree, dv, d),
            dv == data.deep_view(),
            d == dv[0].len(),
            seed < dv.len(),
            0 <= bandwidth <= BANDWIDTH_LIMIT,
            threshold == spec_radius(bandwidth as int, D::squared()),
            mean@.len() == d,
            row_ok(mean@),
            0 <= iterations <= MAX_ITER,
            goal == spec_mean_shift_single::<D>(
                dv,
                tree.rows(),
                tree.identifiers(),
                bandwidth as int,
                seed as int,
            ),
            goal == spec_seek::<D>(
                dv,
                tree.rows(),
                tree.identifiers(),
                bandwidth as int,
                mean@,
                iterations as nat,
            ),
        decreases MAX_ITER - iterations,
    {
        let nbr_ids = tree.within_ids::<D>(&mean, threshold);
        proof {
            lemma_within_ids_members::<D>(
                tree.rows(),
                tree.identifiers(),
                mean@,
                threshold as int,
            );
            assert forall|u: int|
                0 <= u < nbr_ids@.len() implies (#[trigger] nbr_ids@[u]) < dv.len() by {
                assert(tree.identifiers().contains(nbr_ids@[u]));
                let j = choose|j: int|
                    0 <= j < tree.identifiers().len() && tree.identifiers()[j] == nbr_ids@[u];
                assert(tree.identifiers()[j] < dv.len());
            }
        }
        if nbr_ids.len() == 0 {
            let z = zero_vec(mean.len());
            proof {
                assert(goal.0 == zero_row(d));
                assert(goal.1 == 0);
                assert(goal.2 == iterations as int);
                assert(row_ok(zero_row(d)));
            }
            return (z, 0, iterations);
        }
        let mut rows: Vec<Vec<i64>> = Vec::new();
        let mut t: usize = 0;
        while t < nbr_ids.len()
            invariant
                data_wf(dv, d),
                dv == data.deep_view(),
                d == dv[0].len(),
                forall|u: int|
                    0 <= u < nbr_ids@.len() ==> (#[trigger] nbr_ids@[u]) < dv.len(),
                0 <= t <= nbr_ids@.len(),
                rows@.len() == t,
                forall|u: int| 0 <= u < t ==> (#[trigger] rows@[u])@ == dv[nbr_ids@[u] as int],
            decreases nbr_ids@.len() - t,
        {
            let id = nbr_ids[t];
            proof {
                assert(dv[id as int] =~= data@[id as int]@);
            }
            rows.push(clone_row(&data[id]));
            t += 1;
        }
        proof {
            assert(rows.deep_view() =~~= select_rows(dv, nbr_ids@));
            assert(forall|u: int|
                0 <= u < rows@.len() ==> (#[trigger] rows@[u])@.len() == d && row_ok(rows@[u]@));
            assert(rows@[0]@.len() == d);
            assert(rows@.len() <= ROWS_LIMIT);
        }
        let new_mean = D::mean(&rows);
        let o = D::optimized(&new_mean, &mean);
        proof {
            D::lemma_optimized_nonneg(new_mean@, mean@);
            D::lemma_optimized_bound(new_mean@, mean@);
        }
        let conv = below_threshold(o, bandwidth, D::is_squared());
        if conv || iterations >= MAX_ITER {
            proof {
                assert(goal.0 == new_mean@);
                assert(goal.1 == nbr_ids@.len() as int);
                assert(goal.2 == iterations as int);
            }
            return (new_mean, nbr_ids.len(), iterations);
        }
        mean = new_mean;
        iterations += 1;
    }
}


/// The candidate grown from any starting mean keeps the dataset's
/// dimension, bounded coordinates, and a support no larger than the
/// index size.
pub proof fn lemma_seek_props<D: DistanceMeasure>(
    data: Seq<Seq<i64>>,
    tpoints: Seq<Seq<i64>>,
    tids: Seq<usize>,
    bw: int,
    mean: Seq<i64>,
    iterations: nat,
    d: int,
)
    requires
        data_wf(data, d),
        data.len() >= 1,
        tpoints.len() == tids.len() <= ROWS_LIMIT,
        forall|j: int| 0 <= j < tids.len() ==> (#[trigger] tids[j]) < data.len(),
        mean.len() == d,
        row_ok(mean),
    ensures
        ({
            let s = spec_seek::<D>(data, tpoints, tids, bw, mean, iterations);
            &&& s.0.len() == d
            &&& row_ok(s.0)
            &&& 0 <= s.1 <= tpoints.len()
        }),
    decreases MAX_ITER - iterations,
{
    let nbr_ids = spec_within_ids::<D>(tpoints, tids, mean, spec_radius(bw, D::squared()));
    lemma_within_ids_members::<D>(tpoints, tids, mean, spec_radius(bw, D::squared()));
    if nbr_ids.len() == 0 {
        assert(row_ok(zero_row(d))) by {
            assert(data[0].len() == d && row_ok(data[0]));
        }
    } else {
        let rows = select_rows(data, nbr_ids);
        assert forall|u: int| 0 <= u < rows.len() implies (#[trigger] rows[u]).len() == d
            && row_ok(rows[u]) by {
            assert(tids.contains(nbr_ids[u]));
            let j = choose|j: int| 0 <= j < tids.len() && tids[j] == nbr_ids[u];
            assert((nbr_ids[u] as int) < data.len());
            assert(rows[u] == data[nbr_ids[u] as int]);
        }
        let new_mean = D::spec_mean_of(rows);
        D::lemma_mean_of_props(rows, d);
        if !(spec_below_threshold(D::spec_optimized(new_mean, mean), bw, D::squared())
            || iterations >= MAX_ITER) {
            lemma_seek_props::<D>(data, tpoints, tids, bw, new_mean, iterations + 1, d);
        }
    }
}

} // verus!
