use vstd::prelude::*;

pub mod collect;
pub mod label;
pub mod seek;

pub use collect::{collect_means, spec_collect, Candidate};
pub use label::{closest_distance, spec_closest, spec_labels};
pub use seek::{mean_shift_single, spec_mean_shift_single, MAX_ITER};

use rayon::iter::{IntoParallelIterator, ParallelIterator};

use crate::distance_measure::{spec_radius, DistanceMeasure};
use crate::error::MeanShiftError;
use crate::index::{
    lemma_sorted_positions_props, spec_dists, spec_positions, spec_sorted_positions, SpatialIndex,
};
use crate::parallel::collect::{cands_wf, lemma_collect_separation};
use crate::parallel::seek::{clone_row, data_wf, tree_wf_for};
use crate::utils::{
    isqrt_u128, lemma_isqrt_small, row_ok, spec_isqrt, BANDWIDTH_LIMIT, ROWS_LIMIT,
};

verus! {

/// Upper bound on one point's share of the bandwidth estimate.
pub const SHARE_LIMIT: i128 = 400_000_000_000_000;

/// The neighbor count used by the bandwidth estimator: `N` times the
/// default quantile of 0.3, rounded to the nearest integer, and at
/// least one.
pub open spec fn spec_n_neighbors(n: int) -> int {
    let r = (3 * n + 5) / 10;
    if r < 1 {
        1
    } else {
        r
    }
}

fn n_neighbors(n: usize) -> (k: usize)
    requires
        n <= ROWS_LIMIT,
    ensures
        k == spec_n_neighbors(n as int),
        k >= 1,
{
    let r = ((3 * (n as u64) + 5) / 10) as usize;
    if r < 1 {
        1
    } else {
        r
    }
}

/// The `k`-th smallest optimized distance from the query to the rows,
/// counted with multiplicity (`k` is clamped to the number of rows).
pub open spec fn spec_kth_dist<D: DistanceMeasure>(
    points: Seq<Seq<i64>>,
    q: Seq<i64>,
    k: int,
) -> int {
    let ds = spec_dists::<D>(points, q);
    let sp = spec_sorted_positions(ds);
    let kk = if k < points.len() {
        k
    } else {
        points.len() as int
    };
    ds[sp[kk - 1] as int]
}

/// One point's share of the bandwidth estimate: the farthest of
/// its `k` nearest neighbors, pulled back to the true-distance domain.
pub open spec fn spec_point_share<D: DistanceMeasure>(
    data: Seq<Seq<i64>>,
    i: int,
    k: int,
) -> int {
    let m = spec_kth_dist::<D>(data, data[i], k);
    if D::squared() {
        spec_isqrt(m)
    } else {
        m
    }
}

/// The sum of the first `i` points' shares.
pub open spec fn spec_bw_sum<D: DistanceMeasure>(data: Seq<Seq<i64>>, k: int, i: int) -> int
    decreases i,
{
    if i <= 0 {
        0
    } else {
        spec_bw_sum::<D>(data, k, i - 1) + spec_point_share::<D>(data, i - 1, k)
    }
}

/// The estimated bandwidth: the mean of the per-point shares.
pub open spec fn spec_estimate_bandwidth<D: DistanceMeasure>(data: Seq<Seq<i64>>) -> int {
    let k = spec_n_neighbors(data.len() as int);
    spec_bw_sum::<D>(data, k, data.len() as int) / data.len() as int
}

/// The bandwidth a fit works with: the supplied one, or the estimate.
pub open spec fn spec_resolved_bandwidth<D: DistanceMeasure>(
    data: Seq<Seq<i64>>,
    bw_opt: Option<i64>,
) -> int {
    match bw_opt {
        Some(b) => b as int,
        None => spec_estimate_bandwidth::<D>(data),
    }
}

/// One point's share is a nonnegative true distance within the
/// bandwidth range.
proof fn lemma_point_share_bounds<D: DistanceMeasure>(
    data: Seq<Seq<i64>>,
    d: int,
    i: int,
    k: int,
)
    requires
        data_wf(data, d),
        0 <= i < data.len(),
        k >= 1,
    ensures
        0 <= spec_point_share::<D>(data, i, k) <= SHARE_LIMIT,
{
    let q = data[i];
    let ds = spec_dists::<D>(data, q);
    let sp = spec_sorted_positions(ds);
    let kk = if k < data.len() {
        k
    } else {
        data.len() as int
    };
    lemma_sorted_positions_props(ds);
    let p = sp[kk - 1] as int;
    assert(0 <= p < data.len());
    assert(ds[p] == D::spec_optimized(q, data[p]));
    D::lemma_optimized_nonneg(q, data[p]);
    D::lemma_optimized_bound(q, data[p]);
    if D::squared() {
        lemma_isqrt_small(ds[p]);
    }
}

/// The estimated bandwidth is nonnegative and within range.
proof fn lemma_bw_sum_bounds<D: DistanceMeasure>(data: Seq<Seq<i64>>, d: int, k: int, i: int)
    requires
        data_wf(data, d),
        0 <= i <= data.len(),
        k >= 1,
    ensures
        0 <= spec_bw_sum::<D>(data, k, i) <= i * SHARE_LIMIT,
    decreases i,
{
    if i > 0 {
        lemma_bw_sum_bounds::<D>(data, d, k, i - 1);
        lemma_point_share_bounds::<D>(data, d, i - 1, k);
    }
}

/// Estimate the bandwidth from the primary index: for every point, take
/// the farthest of its `k` nearest neighbors (as a true distance), and
/// average over all points.
fn estimate_bandwidth<D: DistanceMeasure>(data: &Vec<Vec<i64>>, tree: &SpatialIndex) -> (bw: i64)
    requires
        data.deep_view().len() >= 1,
        data_wf(data.deep_view(), data.deep_view()[0].len() as int),
        tree.wf(),
        tree.spec_dim() == data.deep_view()[0].len(),
        tree.rows() == data.deep_view(),
        tree.identifiers() == spec_positions(data.deep_view().len()),
    ensures
        bw == spec_estimate_bandwidth::<D>(data.deep_view()),
        0 <= bw <= BANDWIDTH_LIMIT,
{
    let ghost dv = data.deep_view();
    let ghost dd = data.deep_view()[0].len() as int;
    let n = data.len();
    let k = n_neighbors(n);
    let mut sum: i128 = 0;
    let mut i: usize = 0;
    while i < n
        invariant
            dv == data.deep_view(),
            dd == dv[0].len(),
            n == data@.len(),
            n == dv.len(),
            1 <= n,
            data_wf(dv, dd),
            tree.wf(),
            tree.spec_dim() == dd,
            tree.rows() == dv,
            tree.identifiers() == spec_positions(dv.len()),
            k == spec_n_neighbors(n as int),
            k >= 1,
            0 <= i <= n,
            sum == spec_bw_sum::<D>(dv, k as int, i as int),
            0 <= sum <= i as int * SHARE_LIMIT,
        decreases n - i,
    {
        proof {
            assert(dv[i as int] =~= data@[i as int]@);
        }
        let kn = tree.k_nearest::<D>(&data[i], k);
        let ghost q = dv[i as int];
        let ghost ds = spec_dists::<D>(dv, q);
        let ghost sp = spec_sorted_positions(ds);
        let ghost kk: int = if (k as int) < dv.len() {
            k as int
        } else {
            dv.len() as int
        };
        proof {
            lemma_sorted_positions_props(ds);
            assert(kn@.len() == sp.take(kk).len());
            assert(kn@[kk - 1] == (ds[sp[kk - 1] as int] as i128, spec_positions(dv.len())[sp[kk
                - 1] as int]));
            let p = sp[kk - 1] as int;
            assert(0 <= p < dv.len());
            assert(ds[p] == D::spec_optimized(q, dv[p]));
            D::lemma_optimized_nonneg(q, dv[p]);
            D::lemma_optimized_bound(q, dv[p]);
            lemma_point_share_bounds::<D>(dv, dd, i as int, k as int);
        }
        let m = kn[kn.len() - 1].0;
        let share: i128 = if D::is_squared() {
            proof {
                lemma_isqrt_small(m as int);
            }
            isqrt_u128(m as u128) as i128
        } else {
            m
        };
        sum = sum + share;
        i += 1;
        proof {
            assert(sum == spec_bw_sum::<D>(dv, k as int, i as int));
        }
    }
    proof {
        lemma_bw_sum_bounds::<D>(dv, dd, k as int, n as int);
    }
    let bw = match sum.checked_div(n as i128) {
        Some(q) => q,
        None => 0,
    };
    proof {
        vstd::arithmetic::div_mod::lemma_div_pos_is_pos(sum as int, n as int);
        vstd::arithmetic::div_mod::lemma_div_is_ordered(sum as int, n as int * SHARE_LIMIT, n as int);
        vstd::arithmetic::div_mod::lemma_div_multiples_vanish(SHARE_LIMIT as int, n as int);
    }
    bw as i64
}

/// Runs `f` over `0 .. n` on a pool of `n_threads` workers and collects
/// the results in index order.
///
/// Relies on rayon: `ThreadPoolBuilder::build` makes a local pool,
/// `install` runs the closure on it, and collecting an indexed parallel
/// iterator produced by `into_par_iter().map(..)` into a `Vec` preserves
/// the index order of the items.  If no pool can be built the map runs on
/// the calling thread, with the same results.
#[verifier::external_body]
fn par_map<T: Send, F: Fn(usize) -> T + Send + Sync>(n: usize, n_threads: usize, f: F) -> (r: Vec<
    T,
>)
    requires
        forall|i: usize| i < n ==> call_requires(f, (i,)),
    ensures
        r@.len() == n,
        forall|i: int| 0 <= i < n ==> call_ensures(f, (i as usize,), #[trigger] r@[i]),
{
    let pool = rayon::ThreadPoolBuilder::new().num_threads(n_threads).build();
    match pool {
        Ok(p) => p.install(|| (0..n).into_par_iter().map(|i| f(i)).collect()),
        Err(_) => (0..n).map(|i| f(i)).collect(),
    }
}

/// The candidates grown from the first `i` seeds: degenerate seeds are
/// dropped and the survivors get dense identifiers in seed order.
pub open spec fn spec_cands_upto<D: DistanceMeasure>(data: Seq<Seq<i64>>, bw: int, i: int) -> Seq<
    (Seq<i64>, usize, usize, usize),
>
    decreases i,
{
    if i <= 0 {
        Seq::empty()
    } else {
        let rest = spec_cands_upto::<D>(data, bw, i - 1);
        let s = spec_mean_shift_single::<D>(data, data, spec_positions(data.len()), bw, i - 1);
        if s.1 > 0 {
            rest.push((s.0, s.1 as usize, s.2 as usize, rest.len() as usize))
        } else {
            rest
        }
    }
}

/// All surviving candidates of one fit.
pub open spec fn spec_candidates<D: DistanceMeasure>(data: Seq<Seq<i64>>, bw: int) -> Seq<
    (Seq<i64>, usize, usize, usize),
> {
    spec_cands_upto::<D>(data, bw, data.len() as int)
}

/// The surviving candidates are well formed for the collector.
pub proof fn lemma_candidates_wf<D: DistanceMeasure>(data: Seq<Seq<i64>>, d: int, bw: int, i: int)
    requires
        data_wf(data, d),
        1 <= data.len(),
        d == data[0].len(),
        0 <= i <= data.len(),
    ensures
        spec_cands_upto::<D>(data, bw, i).len() <= i,
        cands_wf(spec_cands_upto::<D>(data, bw, i), d),
    decreases i,
{
    if i > 0 {
        lemma_candidates_wf::<D>(data, d, bw, i - 1);
        let rest = spec_cands_upto::<D>(data, bw, i - 1);
        let s = spec_mean_shift_single::<D>(data, data, spec_positions(data.len()), bw, i - 1);
        crate::parallel::seek::lemma_seek_props::<D>(
            data,
            data,
            spec_positions(data.len()),
            bw,
            data[i - 1],
            0,
            d,
        );
        if s.1 > 0 {
            let whole = spec_cands_upto::<D>(data, bw, i);
            assert forall|t: int|
                0 <= t < whole.len() implies (#[trigger] whole[t]).0.len() == d && row_ok(
                whole[t].0,
            ) && whole[t].1 >= 1 && whole[t].3 == t by {
                if t < rest.len() {
                    assert(whole[t] == rest[t]);
                }
            }
        }
    }
}

/// The full fit: validate the dataset, resolve the bandwidth, grow a
/// candidate per seed, collect the modes, and label every point.
pub open spec fn spec_cluster<D: DistanceMeasure>(
    data: Seq<Seq<i64>>,
    bw_opt: Option<i64>,
) -> Result<(Seq<usize>, Seq<Seq<i64>>), MeanShiftError> {
    if data.len() == 0 {
        Err(MeanShiftError::InvalidInput)
    } else if !(data[0].len() >= 1 && crate::utils::rectangular(data, data[0].len() as int)) {
        Err(MeanShiftError::InvalidInput)
    } else if match bw_opt {
        Some(b) => b <= 0,
        None => false,
    } {
        Err(MeanShiftError::InvalidInput)
    } else {
        let bw = spec_resolved_bandwidth::<D>(data, bw_opt);
        let cands = spec_candidates::<D>(data, bw);
        if cands.len() == 0 {
            Err(MeanShiftError::NoClustersFound)
        } else {
            let centers = spec_collect::<D>(cands, bw);
            if centers.len() == 0 {
                Err(MeanShiftError::NoClustersFound)
            } else {
                Ok((spec_labels::<D>(data, centers), centers))
            }
        }
    }
}

/// Label a dataset against an already fitted center set.
pub open spec fn spec_predict<D: DistanceMeasure>(
    centers_opt: Option<Seq<Seq<i64>>>,
    data: Seq<Seq<i64>>,
) -> Result<Seq<usize>, MeanShiftError> {
    match centers_opt {
        None => Err(MeanShiftError::PreconditionNotMet),
        Some(centers) => if !crate::utils::rectangular(data, centers[0].len() as int) {
            Err(MeanShiftError::InvalidInput)
        } else {
            Ok(spec_labels::<D>(data, centers))
        },
    }
}

/// Every row of the dataset obeys the machine limits.
pub open spec fn rows_within_limits(data: Seq<Seq<i64>>) -> bool {
    &&& data.len() <= ROWS_LIMIT
    &&& forall|i: int| 0 <= i < data.len() ==> row_ok(#[trigger] data[i])
}

/// Copy a matrix.
fn clone_matrix(m: &Vec<Vec<i64>>) -> (r: Vec<Vec<i64>>)
    ensures
        r.deep_view() == m.deep_view(),
        r@.len() == m@.len(),
{
    let n = m.len();
    let mut r: Vec<Vec<i64>> = Vec::new();
    let mut i: usize = 0;
    while i < n
        invariant
            n == m@.len(),
            0 <= i <= n,
            r@.len() == i,
            forall|j: int| 0 <= j < i ==> (#[trigger] r@[j])@ == m@[j]@,
        decreases n - i,
    {
        r.push(clone_row(&m[i]));
        i += 1;
    }
    proof {
        assert(r.deep_view() =~~= m.deep_view());
    }
    r
}

/// The mean-shift engine: it owns the configuration of one fit and, after
/// a successful fit, the bandwidth it used and the centers it found.
pub struct MeanShift<D: DistanceMeasure> {
    distance_measure: D,
    bandwidth: Option<i64>,
    cluster_centers: Option<Vec<Vec<i64>>>,
    n_threads: usize,
}

impl<D: DistanceMeasure> MeanShift<D> {
    /// The configured or fitted bandwidth.
    pub closed spec fn spec_bandwidth(&self) -> Option<i64> {
        self.bandwidth
    }

    /// The fitted cluster centers.
    pub closed spec fn spec_cluster_centers(&self) -> Option<Seq<Seq<i64>>> {
        match self.cluster_centers {
            None => None,
            Some(c) => Some(c.deep_view()),
        }
    }

    /// The configured worker count.
    pub closed spec fn spec_n_threads(&self) -> int {
        self.n_threads as int
    }

    /// Stored centers, if any, form a non-empty bounded rectangular matrix.
    pub closed spec fn wf(&self) -> bool {
        match self.cluster_centers {
            None => true,
            Some(c) => {
                let cd = c.deep_view();
                &&& cd.len() >= 1
                &&& forall|i: int|
                    0 <= i < cd.len() ==> (#[trigger] cd[i]).len() == cd[0].len() && row_ok(cd[i])
            },
        }
    }

    pub fn new(distance_measure: D, bandwidth: Option<i64>) -> (r: Self)
        ensures
            r.spec_bandwidth() == bandwidth,
            r.spec_cluster_centers() == Option::<Seq<Seq<i64>>>::None,
            r.spec_n_threads() == 1,
            r.wf(),
    {
        Self { distance_measure, bandwidth, cluster_centers: None, n_threads: 1 }
    }

    pub fn new_with_threads(distance_measure: D, bandwidth: Option<i64>, n_threads: usize) -> (r:
        Self)
        requires
            n_threads >= 1,
        ensures
            r.spec_bandwidth() == bandwidth,
            r.spec_cluster_centers() == Option::<Seq<Seq<i64>>>::None,
            r.spec_n_threads() == n_threads,
            r.wf(),
    {
        Self { distance_measure, bandwidth, cluster_centers: None, n_threads }
    }

    /// Cluster the dataset: returns the label of every input point and
    /// the cluster centers, or the error the dataset deserves.
    pub fn cluster(&mut self, dataset: &Vec<Vec<i64>>) -> (r: Result<
        (Vec<usize>, Vec<Vec<i64>>),
        MeanShiftError,
    >)
        requires
            old(self).wf(),
            old(self).spec_n_threads() >= 1,
            rows_within_limits(dataset.deep_view()),
            match old(self).spec_bandwidth() {
                Some(b) => b <= BANDWIDTH_LIMIT,
                None => true,
            },
        ensures
            final(self).wf(),
            ({
                let s = spec_cluster::<D>(dataset.deep_view(), old(self).spec_bandwidth());
                match r {
                    Err(e) => s == Result::<(Seq<usize>, Seq<Seq<i64>>), MeanShiftError>::Err(e)
                        && *final(self) == *old(self),
                    Ok((labels, centers)) => s == Result::<
                        (Seq<usize>, Seq<Seq<i64>>),
                        MeanShiftError,
                    >::Ok((labels@, centers.deep_view())) && final(self).spec_cluster_centers()
                        == Some(centers.deep_view()) && final(self).spec_bandwidth() == Some(
                        spec_resolved_bandwidth::<D>(
                            dataset.deep_view(),
                            old(self).spec_bandwidth(),
                        ) as i64,
                    ) && final(self).spec_n_threads() == old(self).spec_n_threads(),
                }
            }),
    {
        let ghost dv = dataset.deep_view();
        let ghost bw_opt = self.bandwidth;
        let n = dataset.len();
        if n == 0 {
            return Err(MeanShiftError::InvalidInput);
        }
        let d = dataset[0].len();
        proof {
            assert(dv[0] =~= dataset@[0]@);
        }
        let mut rect = d >= 1;
        let mut i: usize = 0;
        while i < n
            invariant
                n == dataset@.len(),
                dv == dataset.deep_view(),
                n == dv.len(),
                d == dv[0].len(),
                0 <= i <= n,
                rect == (d >= 1 && forall|j: int| 0 <= j < i ==> (#[trigger] dv[j]).len() == d),
            decreases n - i,
        {
            proof {
                assert(dv[i as int] =~= dataset@[i as int]@);
            }
            if dataset[i].len() != d {
                rect = false;
            }
            i += 1;
        }
        if !rect {
            proof {
                assert(!(dv[0].len() >= 1 && crate::utils::rectangular(dv, dv[0].len() as int)));
            }
            return Err(MeanShiftError::InvalidInput);
        }
        proof {
            assert(crate::utils::rectangular(dv, d as int));
            assert(data_wf(dv, d as int));
        }
        match self.bandwidth {
            Some(b) => {
                if b <= 0 {
                    return Err(MeanShiftError::InvalidInput);
                }
            },
            None => {},
        }
        // build the primary index over the dataset
        let mut tree = SpatialIndex::new(d);
        let mut i2: usize = 0;
        while i2 < n
            invariant
                n == dataset@.len(),
                dv == dataset.deep_view(),
                n == dv.len(),
                d == dv[0].len(),
                data_wf(dv, d as int),
                0 <= i2 <= n,
                tree.wf(),
                tree.spec_dim() == d,
                tree.rows() =~= dv.take(i2 as int),
                tree.identifiers() =~= spec_positions(i2 as nat),
            decreases n - i2,
        {
            proof {
                assert(dv[i2 as int] =~= dataset@[i2 as int]@);
            }
            let row = clone_row(&dataset[i2]);
            tree.add(row, i2);
            proof {
                assert(tree.rows() =~= dv.take(i2 + 1));
                assert(tree.identifiers() =~= spec_positions((i2 + 1) as nat));
            }
            i2 += 1;
        }
        proof {
            assert(tree.rows() =~= dv);
            assert(tree.identifiers() =~= spec_positions(dv.len()));
        }
        // resolve the bandwidth
        let bw: i64 = match self.bandwidth {
            Some(b) => b,
            None => estimate_bandwidth::<D>(dataset, &tree),
        };
        proof {
            assert(bw as int == spec_resolved_bandwidth::<D>(dv, bw_opt));
            assert(0 <= bw <= BANDWIDTH_LIMIT);
            assert(tree_wf_for(tree, dv, d as int)) by {
                assert forall|j: int|
                    0 <= j < tree.identifiers().len() implies (#[trigger] tree.identifiers()[j])
                    < dv.len() by {
                    assert(tree.identifiers()[j] == j as usize);
                }
            }
        }
        // grow one candidate per seed, in parallel
        let workers = if self.n_threads < n {
            self.n_threads
        } else {
            n
        };
        let tree_ref = &tree;
        let f = |seed: usize| -> (res: (Vec<i64>, usize, usize))
            requires
                data_wf(dataset.deep_view(), dataset.deep_view()[0].len() as int),
                tree_ref.wf(),
                tree_ref.spec_dim() == dataset.deep_view()[0].len(),
                tree_ref.rows().len() == tree_ref.identifiers().len(),
                tree_ref.identifiers().len() <= ROWS_LIMIT,
                ({
                    let tids = tree_ref.identifiers();
                    forall|j: int|
                        0 <= j < tids.len() ==> (#[trigger] tids[j]) < dataset.deep_view().len()
                }),
                seed < dataset.deep_view().len(),
                0 <= bw <= BANDWIDTH_LIMIT,
            ensures
                ({
                    let s = spec_mean_shift_single::<D>(
                        dataset.deep_view(),
                        tree_ref.rows(),
                        tree_ref.identifiers(),
                        bw as int,
                        seed as int,
                    );
                    &&& res.0@ == s.0
                    &&& res.1 == s.1
                    &&& res.2 == s.2
                }),
            { mean_shift_single::<D>(dataset, tree_ref, seed, bw) };
        let raw = par_map(n, workers, f);
        // keep the candidates with positive support, with dense identifiers
        let mut cands: Vec<Candidate> = Vec::new();
        let mut i3: usize = 0;
        while i3 < n
            invariant
                n == dataset@.len(),
                dv == dataset.deep_view(),
                n == dv.len(),
                d == dv[0].len(),
                data_wf(dv, d as int),
                tree.rows() == dv,
                tree.identifiers() == spec_positions(dv.len()),
                raw@.len() == n,
                forall|j: int|
                    0 <= j < n ==> {
                        let s = spec_mean_shift_single::<D>(
                            dv,
                            dv,
                            spec_positions(dv.len()),
                            bw as int,
                            j,
                        );
                        (#[trigger] raw@[j]).0@ == s.0 && raw@[j].1 == s.1 && raw@[j].2 == s.2
                    },
                0 <= i3 <= n,
                cands.deep_view() == spec_cands_upto::<D>(dv, bw as int, i3 as int),
            decreases n - i3,
        {
            let ghost s = spec_mean_shift_single::<D>(
                dv,
                dv,
                spec_positions(dv.len()),
                bw as int,
                i3 as int,
            );
            if raw[i3].1 > 0 {
                let id = cands.len();
                let row = clone_row(&raw[i3].0);
                cands.push((row, raw[i3].1, raw[i3].2, id));
                proof {
                    assert(cands.deep_view() =~~= spec_cands_upto::<D>(dv, bw as int, i3 + 1));
                }
            } else {
                proof {
                    assert(cands.deep_view() =~~= spec_cands_upto::<D>(dv, bw as int, i3 + 1));
                }
            }
            i3 += 1;
        }
        proof {
            assert(cands.deep_view() == spec_candidates::<D>(dv, bw as int));
            lemma_candidates_wf::<D>(dv, d as int, bw as int, n as int);
        }
        if cands.len() == 0 {
            return Err(MeanShiftError::NoClustersFound);
        }
        // collect the modes
        let centers = collect_means::<D>(&cands, bw, d);
        proof {
            lemma_collect_separation::<D>(cands.deep_view(), d as int, bw as int);
        }
        if centers.len() == 0 {
            return Err(MeanShiftError::NoClustersFound);
        }
        // label every point against the centers, in parallel
        let ghost cdv = centers.deep_view();
        proof {
            assert forall|j: int| 0 <= j < centers@.len() implies (#[trigger] centers@[j])@
                == cdv[j] by {
                assert(cdv[j] =~= centers@[j]@);
            }
        }
        let centers_ref = &centers;
        let g = |pt: usize| -> (res: usize)
            requires
                pt < dataset.deep_view().len(),
                centers_ref@.len() >= 1,
                data_wf(dataset.deep_view(), dataset.deep_view()[0].len() as int),
                forall|j: int|
                    0 <= j < centers_ref@.len() ==> (#[trigger] centers_ref@[j])@.len()
                        == dataset.deep_view()[0].len() && row_ok(centers_ref@[j]@),
            ensures
                res == spec_closest::<D>(
                    dataset.deep_view()[pt as int],
                    centers_ref.deep_view(),
                ) as usize,
                res < centers_ref@.len(),
            {
                proof {
                    assert(dataset.deep_view()[pt as int] =~= dataset@[pt as int]@);
                }
                closest_distance::<D>(&dataset[pt], centers_ref)
            };
        let labels = par_map(n, workers, g);
        proof {
            assert(labels@ =~= spec_labels::<D>(dv, cdv));
        }
        // store the fitted state
        self.bandwidth = Some(bw);
        self.cluster_centers = Some(clone_matrix(&centers));
        proof {
            let s = spec_cluster::<D>(dv, bw_opt);
            assert(s == Result::<(Seq<usize>, Seq<Seq<i64>>), MeanShiftError>::Ok(
                (labels@, centers.deep_view()),
            ));
        }
        Ok((labels, centers))
    }

    /// The configured or fitted bandwidth.
    pub fn bandwidth(&self) -> (r: Option<i64>)
        ensures
            r == self.spec_bandwidth(),
    {
        self.bandwidth
    }

    /// The fitted cluster centers, if a fit succeeded.
    pub fn cluster_centers(&self) -> (r: &Option<Vec<Vec<i64>>>)
        ensures
            match r {
                None => self.spec_cluster_centers() is None,
                Some(c) => self.spec_cluster_centers() == Some(c.deep_view()),
            },
    {
        &self.cluster_centers
    }

    /// Label a dataset against the centers of an earlier fit.
    pub fn predict(&self, dataset: &Vec<Vec<i64>>) -> (r: Result<Vec<usize>, MeanShiftError>)
        requires
            self.wf(),
            rows_within_limits(dataset.deep_view()),
        ensures
            ({
                let s = spec_predict::<D>(self.spec_cluster_centers(), dataset.deep_view());
                match r {
                    Err(e) => s == Result::<Seq<usize>, MeanShiftError>::Err(e),
                    Ok(labels) => s == Result::<Seq<usize>, MeanShiftError>::Ok(labels@),
                }
            }),
    {
        let ghost dv = dataset.deep_view();
        let centers = match &self.cluster_centers {
            None => {
                return Err(MeanShiftError::PreconditionNotMet);
            },
            Some(c) => c,
        };
        let ghost cdv = centers.deep_view();
        let d = centers[0].len();
        proof {
            assert(cdv[0] =~= centers@[0]@);
            assert forall|j: int| 0 <= j < centers@.len() implies (#[trigger] centers@[j])@
                == cdv[j] by {
                assert(cdv[j] =~= centers@[j]@);
            }
        }
        let n = dataset.len();
        let mut rect = true;
        let mut i: usize = 0;
        while i < n
            invariant
                n == dataset@.len(),
                dv == dataset.deep_view(),
                n == dv.len(),
                d == cdv[0].len(),
                0 <= i <= n,
                rect == (forall|j: int| 0 <= j < i ==> (#[trigger] dv[j]).len() == d),
            decreases n - i,
        {
            proof {
                assert(dv[i as int] =~= dataset@[i as int]@);
            }
            if dataset[i].len() != d {
                rect = false;
            }
            i += 1;
        }
        if !rect {
            return Err(MeanShiftError::InvalidInput);
        }
        let mut labels: Vec<usize> = Vec::new();
        let mut i4: usize = 0;
        while i4 < n
            invariant
                n == dataset@.len(),
                dv == dataset.deep_view(),
                n == dv.len(),
                rows_within_limits(dv),
                crate::utils::rectangular(dv, d as int),
                d == cdv[0].len(),
                cdv == centers.deep_view(),
                cdv.len() >= 1,
                centers@.len() == cdv.len(),
                forall|j: int| 0 <= j < centers@.len() ==> (#[trigger] centers@[j])@ == cdv[j],
                forall|j: int|
                    0 <= j < cdv.len() ==> (#[trigger] cdv[j]).len() == d && row_ok(cdv[j]),
                0 <= i4 <= n,
                labels@.len() == i4,
                forall|j: int|
                    0 <= j < i4 ==> #[trigger] labels@[j] == spec_closest::<D>(
                        dv[j],
                        cdv,
                    ) as usize,
            decreases n - i4,
        {
            proof {
                assert(dv[i4 as int] =~= dataset@[i4 as int]@);
            }
            let l = closest_distance::<D>(&dataset[i4], centers);
            labels.push(l);
            i4 += 1;
        }
        proof {
            assert(labels@ =~= spec_labels::<D>(dv, cdv));
        }
        Ok(labels)
    }
}


/// A fit is a function of the dataset, the bandwidth, and the distance
/// strategy alone: two fits of the same inputs return the same labels and
/// the same centers, in the same order, whatever the worker count or the
/// timing of the workers.
pub proof fn lemma_fit_deterministic<D: DistanceMeasure>(
    data: Seq<Seq<i64>>,
    bw_opt: Option<i64>,
    r1: Result<(Seq<usize>, Seq<Seq<i64>>), MeanShiftError>,
    r2: Result<(Seq<usize>, Seq<Seq<i64>>), MeanShiftError>,
)
    requires
        r1 == spec_cluster::<D>(data, bw_opt),
        r2 == spec_cluster::<D>(data, bw_opt),
    ensures
        r1 == r2,
{
}

/// The bandwidth a successful fit resolves to is nonnegative.
pub proof fn lemma_resolved_bandwidth_nonneg<D: DistanceMeasure>(
    data: Seq<Seq<i64>>,
    bw_opt: Option<i64>,
    labels: Seq<usize>,
    centers: Seq<Seq<i64>>,
)
    requires
        rows_within_limits(data),
        spec_cluster::<D>(data, bw_opt) == Result::<
            (Seq<usize>, Seq<Seq<i64>>),
            MeanShiftError,
        >::Ok((labels, centers)),
    ensures
        spec_resolved_bandwidth::<D>(data, bw_opt) >= 0,
{
    let d = data[0].len() as int;
    assert(data_wf(data, d));
    match bw_opt {
        Some(b) => {
            assert(b > 0);
        },
        None => {
            let k = spec_n_neighbors(data.len() as int);
            lemma_bw_sum_bounds::<D>(data, d, k, data.len() as int);
            vstd::arithmetic::div_mod::lemma_div_pos_is_pos(
                spec_bw_sum::<D>(data, k, data.len() as int),
                data.len() as int,
            );
        },
    }
}

/// The separation invariant: any two distinct cluster centers of a
/// successful fit are farther apart than one bandwidth, stated exactly in
/// the optimized distance domain.
pub proof fn lemma_centers_separated<D: DistanceMeasure>(
    data: Seq<Seq<i64>>,
    bw_opt: Option<i64>,
    labels: Seq<usize>,
    centers: Seq<Seq<i64>>,
)
    requires
        rows_within_limits(data),
        spec_cluster::<D>(data, bw_opt) == Result::<
            (Seq<usize>, Seq<Seq<i64>>),
            MeanShiftError,
        >::Ok((labels, centers)),
    ensures
        forall|i: int, j: int|
            0 <= i < centers.len() && 0 <= j < centers.len() && i != j ==> D::spec_optimized(
                #[trigger] centers[i],
                #[trigger] centers[j],
            ) > spec_radius(spec_resolved_bandwidth::<D>(data, bw_opt), D::squared()),
        forall|i: int, j: int|
            0 <= i < centers.len() && 0 <= j < centers.len() && i != j
                ==> crate::distance_measure::spec_true_distance_of(
                D::spec_optimized(#[trigger] centers[i], #[trigger] centers[j]),
                D::squared(),
            ) >= spec_resolved_bandwidth::<D>(data, bw_opt),
{
    let d = data[0].len() as int;
    assert(data_wf(data, d));
    let bw = spec_resolved_bandwidth::<D>(data, bw_opt);
    lemma_candidates_wf::<D>(data, d, bw, data.len() as int);
    lemma_collect_separation::<D>(spec_candidates::<D>(data, bw), d, bw);
    assert(centers == spec_collect::<D>(spec_candidates::<D>(data, bw), bw));
    lemma_resolved_bandwidth_nonneg::<D>(data, bw_opt, labels, centers);
    assert forall|i: int, j: int|
        0 <= i < centers.len() && 0 <= j < centers.len() && i
        != j implies crate::distance_measure::spec_true_distance_of(
        D::spec_optimized(#[trigger] centers[i], #[trigger] centers[j]),
        D::squared(),
    ) >= bw by {
        let o = D::spec_optimized(centers[i], centers[j]);
        if D::squared() {
            assert(o > bw * bw);
            crate::utils::lemma_isqrt_exact_square(bw);
            crate::utils::lemma_isqrt_monotone(bw * bw, o);
        }
    }
}

/// Self-consistency of labels, and idempotence of labeling: each center
/// of a successful fit labels to its own index, so relabeling the centers
/// against themselves is the identity mapping.
pub proof fn lemma_center_labels_identity<D: DistanceMeasure>(
    data: Seq<Seq<i64>>,
    bw_opt: Option<i64>,
    labels: Seq<usize>,
    centers: Seq<Seq<i64>>,
)
    requires
        rows_within_limits(data),
        spec_cluster::<D>(data, bw_opt) == Result::<
            (Seq<usize>, Seq<Seq<i64>>),
            MeanShiftError,
        >::Ok((labels, centers)),
    ensures
        forall|i: int| 0 <= i < centers.len() ==> spec_closest::<D>(#[trigger] centers[i], centers)
            == i,
        spec_labels::<D>(centers, centers) =~= Seq::new(centers.len(), |i: int| i as usize),
{
    let bw = spec_resolved_bandwidth::<D>(data, bw_opt);
    let sep = spec_radius(bw, D::squared());
    lemma_centers_separated::<D>(data, bw_opt, labels, centers);
    lemma_resolved_bandwidth_nonneg::<D>(data, bw_opt, labels, centers);
    assert(sep >= 0) by {
        if D::squared() {
            assert(bw * bw >= 0) by (nonlinear_arith);
        }
    }
    assert forall|i: int|
        0 <= i < centers.len() implies spec_closest::<D>(#[trigger] centers[i], centers) == i by {
        crate::parallel::label::lemma_center_label_is_index::<D>(centers, i, sep);
    }
    crate::parallel::label::lemma_labeling_idempotent::<D>(centers, sep);
}


impl<D: DistanceMeasure + Default> Default for MeanShift<D> {
    /// An engine with no bandwidth, no fitted centers, and one worker.
    fn default() -> (r: Self)
        ensures
            r.spec_bandwidth() == Option::<i64>::None,
            r.spec_cluster_centers() == Option::<Seq<Seq<i64>>>::None,
            r.spec_n_threads() == 1,
            r.wf(),
    {
        Self { distance_measure: D::default(), bandwidth: None, cluster_centers: None, n_threads: 1 }
    }
}

} // verus!
