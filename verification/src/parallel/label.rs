use vstd::prelude::*;

use crate::distance_measure::DistanceMeasure;
use crate::utils::row_ok;

verus! {

/// The index of the closest center among the first `k`, ties broken by the
/// first occurrence.
pub open spec fn spec_closest_upto<D: DistanceMeasure>(
    point: Seq<i64>,
    centers: Seq<Seq<i64>>,
    k: nat,
) -> int
    decreases k,
{
    if k <= 1 {
        0
    } else {
        let prev = spec_closest_upto::<D>(point, centers, (k - 1) as nat);
        if D::spec_optimized(point, centers[k - 1]) < D::spec_optimized(point, centers[prev]) {
            k - 1
        } else {
            prev
        }
    }
}

/// The label of a point: the index of its nearest center, first occurrence
/// on ties.
pub open spec fn spec_closest<D: DistanceMeasure>(point: Seq<i64>, centers: Seq<Seq<i64>>) -> int {
    spec_closest_upto::<D>(point, centers, centers.len())
}

/// The labels of all points against a fixed center set.
pub open spec fn spec_labels<D: DistanceMeasure>(
    data: Seq<Seq<i64>>,
    centers: Seq<Seq<i64>>,
) -> Seq<usize> {
    Seq::new(data.len(), |i: int| spec_closest::<D>(data[i], centers) as usize)
}

/// The chosen index is in range and no earlier center is strictly closer;
/// every center at least as early as the winner is no closer.
pub proof fn lemma_closest_upto_min<D: DistanceMeasure>(
    point: Seq<i64>,
    centers: Seq<Seq<i64>>,
    k: nat,
)
    requires
        k >= 1,
    ensures
        0 <= spec_closest_upto::<D>(point, centers, k) < k,
        forall|j: int|
            0 <= j < k ==> D::spec_optimized(point, centers[spec_closest_upto::<D>(point, centers, k)])
                <= D::spec_optimized(point, #[trigger] centers[j]),
    decreases k,
{
    if k > 1 {
        lemma_closest_upto_min::<D>(point, centers, (k - 1) as nat);
    }
}

/// The label of the `i`-th center, against the centers themselves, is `i`,
/// whenever distinct centers are farther apart than a nonnegative radius.
pub proof fn lemma_center_label_is_index<D: DistanceMeasure>(
    centers: Seq<Seq<i64>>,
    i: int,
    sep: int,
)
    requires
        0 <= i < centers.len(),
        sep >= 0,
        forall|p: int, q: int|
            0 <= p < centers.len() && 0 <= q < centers.len() && p != q
                ==> D::spec_optimized(#[trigger] centers[p], #[trigger] centers[q]) > sep,
    ensures
        spec_closest::<D>(centers[i], centers) == i,
{
    D::lemma_optimized_self_zero(centers[i]);
    lemma_center_label_upto::<D>(centers, i, sep, centers.len());
}

proof fn lemma_center_label_upto<D: DistanceMeasure>(
    centers: Seq<Seq<i64>>,
    i: int,
    sep: int,
    k: nat,
)
    requires
        0 <= i < centers.len(),
        sep >= 0,
        D::spec_optimized(centers[i], centers[i]) == 0,
        forall|p: int, q: int|
            0 <= p < centers.len() && 0 <= q < centers.len() && p != q
                ==> D::spec_optimized(#[trigger] centers[p], #[trigger] centers[q]) > sep,
        i < k <= centers.len(),
    ensures
        spec_closest_upto::<D>(centers[i], centers, k) == i,
    decreases k,
{
    let point = centers[i];
    if k <= 1 {
        assert(i == 0);
    } else {
        let prev = spec_closest_upto::<D>(point, centers, (k - 1) as nat);
        lemma_closest_upto_min::<D>(point, centers, (k - 1) as nat);
        if i < k - 1 {
            lemma_center_label_upto::<D>(centers, i, sep, (k - 1) as nat);
            assert(prev == i);
            assert(D::spec_optimized(point, centers[k - 1]) > sep);
            assert(!(D::spec_optimized(point, centers[k - 1]) < D::spec_optimized(
                point,
                centers[prev],
            )));
        } else {
            assert(i == k - 1);
            if prev != i {
                assert(D::spec_optimized(point, centers[prev]) > sep);
                assert(D::spec_optimized(point, centers[i]) == 0);
            }
        }
    }
}

/// Labeling the centers against themselves is the identity mapping.
pub proof fn lemma_labeling_idempotent<D: DistanceMeasure>(centers: Seq<Seq<i64>>, sep: int)
    requires
        sep >= 0,
        forall|p: int, q: int|
            0 <= p < centers.len() && 0 <= q < centers.len() && p != q
                ==> D::spec_optimized(#[trigger] centers[p], #[trigger] centers[q]) > sep,
    ensures
        spec_labels::<D>(centers, centers) =~= Seq::new(centers.len(), |i: int| i as usize),
{
    assert forall|i: int| 0 <= i < centers.len() implies spec_labels::<D>(centers, centers)[i]
        == i as usize by {
        lemma_center_label_is_index::<D>(centers, i, sep);
    }
}

/// The index of the nearest center, ties broken by the first occurrence.
pub fn closest_distance<D: DistanceMeasure>(point: &Vec<i64>, centers: &Vec<Vec<i64>>) -> (r:
    usize)
    requires
        centers@.len() >= 1,
        row_ok(point@),
        forall|j: int|
            0 <= j < centers@.len() ==> (#[trigger] centers@[j])@.len() == point@.len() && row_ok(
                centers@[j]@,
            ),
    ensures
        r == spec_closest::<D>(point@, centers.deep_view()),
        r < centers@.len(),
{
    let ghost cdv = centers.deep_view();
    proof {
        assert forall|j: int| 0 <= j < cdv.len() implies cdv[j] =~= centers@[j]@ by {}
    }
    let n = centers.len();
    let mut best: usize = 0;
    let mut best_dist: i128 = D::optimized(point, &centers[0]);
    let mut k: usize = 1;
    while k < n
        invariant
            n == centers@.len(),
            n >= 1,
            cdv == centers.deep_view(),
            cdv.len() == n,
            row_ok(point@),
            forall|j: int|
                0 <= j < n ==> (#[trigger] centers@[j])@.len() == point@.len() && row_ok(
                    centers@[j]@,
                ),
            forall|j: int| 0 <= j < cdv.len() ==> #[trigger] cdv[j] == centers@[j]@,
            1 <= k <= n,
            best == spec_closest_upto::<D>(point@, cdv, k as nat),
            best < k,
            best_dist == D::spec_optimized(point@, cdv[best as int]),
        decreases n - k,
    {
        let d = D::optimized(point, &centers[k]);
        if d < best_dist {
            best = k;
            best_dist = d;
        }
        k += 1;
    }
    best
}

} // verus!
