use meanshift_rs::index::SpatialIndex;
use meanshift_rs::parallel::mean_shift_single;
use meanshift_rs::{cluster_named, Euclidean, Manhattan, MeanShift, MeanShiftError, Parameters, DTW};
use meanshift_rs::DistanceMeasure;

/// A small deterministic pseudo-random generator for jitter.
struct Lcg(u64);

impl Lcg {
    fn next(&mut self) -> u64 {
        self.0 = self.0.wrapping_mul(6364136223846793005).wrapping_add(1442695040888963407);
        self.0 >> 33
    }

    /// A jitter value in [-spread, spread].
    fn jitter(&mut self, spread: i64) -> i64 {
        (self.next() % (2 * spread as u64 + 1)) as i64 - spread
    }
}

/// Ten points near 0.5 in three dimensions, in fixed point (scale 1e6):
/// a dense blob of doubled points around (0.5, 0.5, 0.5).
fn dense_blob() -> Vec<Vec<i64>> {
    let offsets: [[i64; 3]; 5] = [
        [0, 0, 0],
        [40, 0, 0],
        [-40, 0, 0],
        [0, 40, 0],
        [0, -40, 0],
    ];
    let mut data = Vec::new();
    for o in offsets {
        for _ in 0..2 {
            data.push(o.iter().map(|x| 500_000 + x).collect());
        }
    }
    data
}

/// Three well-separated blocks of 100 points each, centered at
/// (100, 100, 100), (0, 0, 0) and (-100, -100, -100), in fixed point
/// (scale 1e3).
fn three_blocks() -> Vec<Vec<i64>> {
    let mut rng = Lcg(7);
    let mut data = Vec::new();
    for center in [100_000i64, 0, -100_000] {
        for _ in 0..100 {
            data.push(vec![
                center + rng.jitter(500),
                center + rng.jitter(500),
                center + rng.jitter(500),
            ]);
        }
    }
    data
}

#[test]
fn test_single_blob_one_cluster() {
    let data = dense_blob();
    let mut engine = MeanShift::new_with_threads(Euclidean, None, 4);
    let (labels, centers) = engine.cluster(&data).unwrap();
    assert_eq!(centers.len(), 1);
    assert_eq!(labels, vec![0; 10]);
    // the center lies inside the blob
    for c in &centers[0] {
        assert!((c - 500_000).abs() <= 40);
    }
}

#[test]
fn test_three_blocks_three_clusters() {
    let data = three_blocks();
    let mut engine = MeanShift::new_with_threads(Euclidean, None, 4);
    let (labels, centers) = engine.cluster(&data).unwrap();
    assert_eq!(centers.len(), 3);
    // labels form three contiguous constant groups, pairwise distinct
    let l0 = labels[0];
    let l1 = labels[100];
    let l2 = labels[200];
    assert!(labels[0..100].iter().all(|&l| l == l0));
    assert!(labels[100..200].iter().all(|&l| l == l1));
    assert!(labels[200..300].iter().all(|&l| l == l2));
    assert!(l0 != l1 && l1 != l2 && l0 != l2);
    // each center is within 2.0 (scaled: 2000) of its block's centroid
    for (block, &label) in [(0usize, &l0), (1, &l1), (2, &l2)] {
        let mut centroid = [0i64; 3];
        for row in &data[block * 100..(block + 1) * 100] {
            for (s, x) in centroid.iter_mut().zip(row) {
                *s += x;
            }
        }
        let centroid: Vec<i64> = centroid.iter().map(|s| s / 100).collect();
        let center = &centers[label];
        let sq: i64 = centroid
            .iter()
            .zip(center)
            .map(|(a, b)| (a - b) * (a - b))
            .sum();
        assert!(sq <= 2_000 * 2_000, "center too far from block centroid: {sq}");
    }
}

#[test]
fn test_three_blocks_manhattan_same_partition() {
    let data = three_blocks();
    let mut euclid = MeanShift::new_with_threads(Euclidean, None, 4);
    let (labels_e, _) = euclid.cluster(&data).unwrap();
    let mut manhattan = MeanShift::new_with_threads(Manhattan, None, 4);
    let (labels_m, centers_m) = manhattan.cluster(&data).unwrap();
    assert_eq!(centers_m.len(), 3);
    // the same partition: equal labels in one clustering iff equal in the other
    for i in 0..data.len() {
        for j in 0..data.len() {
            assert_eq!(labels_e[i] == labels_e[j], labels_m[i] == labels_m[j]);
        }
    }
}

#[test]
fn test_empty_dataset_invalid_input() {
    let data: Vec<Vec<i64>> = Vec::new();
    let mut engine = MeanShift::new_with_threads(Euclidean, None, 2);
    assert_eq!(engine.cluster(&data), Err(MeanShiftError::InvalidInput));
}

#[test]
fn test_ragged_dataset_invalid_input() {
    let data: Vec<Vec<i64>> = vec![vec![1, 2, 3], vec![4, 5]];
    let mut engine = MeanShift::new_with_threads(Euclidean, None, 2);
    assert_eq!(engine.cluster(&data), Err(MeanShiftError::InvalidInput));
}

#[test]
fn test_nonpositive_bandwidth_invalid_input() {
    let data: Vec<Vec<i64>> = vec![vec![1, 2], vec![3, 4]];
    let mut engine = MeanShift::new_with_threads(Euclidean, Some(0), 2);
    assert_eq!(engine.cluster(&data), Err(MeanShiftError::InvalidInput));
    let mut engine = MeanShift::new_with_threads(Euclidean, Some(-5), 2);
    assert_eq!(engine.cluster(&data), Err(MeanShiftError::InvalidInput));
}

#[test]
fn test_unknown_distance_name_invalid_input() {
    let data: Vec<Vec<i64>> = vec![vec![1, 2], vec![3, 4]];
    let r = cluster_named("chebyshev", &data, Parameters::default());
    assert_eq!(r, Err(MeanShiftError::InvalidInput));
}

#[test]
fn test_cluster_named_minkowski() {
    let data = dense_blob();
    let r = cluster_named("minkowski", &data, Parameters::default()).unwrap();
    assert_eq!(r.1.len(), 1);
    assert_eq!(r.0, vec![0; 10]);
}

#[test]
fn test_predict_before_fit_precondition_not_met() {
    let engine: MeanShift<Euclidean> = MeanShift::new(Euclidean, None);
    let data: Vec<Vec<i64>> = vec![vec![1, 2]];
    assert_eq!(engine.predict(&data), Err(MeanShiftError::PreconditionNotMet));
}

#[test]
fn test_determinism_across_thread_counts() {
    let data = three_blocks();
    let mut one = MeanShift::new_with_threads(Euclidean, None, 1);
    let mut many = MeanShift::new_with_threads(Euclidean, None, 7);
    let r1 = one.cluster(&data).unwrap();
    let r2 = many.cluster(&data).unwrap();
    assert_eq!(r1, r2);
    let r3 = many.cluster(&data).unwrap();
    assert_eq!(r1, r3);
}

#[test]
fn test_labels_self_consistent() {
    // labeling the returned centers against themselves is the identity
    let data = three_blocks();
    let mut engine = MeanShift::new_with_threads(Euclidean, None, 4);
    let (_, centers) = engine.cluster(&data).unwrap();
    let relabeled = engine.predict(&centers).unwrap();
    let identity: Vec<usize> = (0..centers.len()).collect();
    assert_eq!(relabeled, identity);
}

#[test]
fn test_centers_separated_by_bandwidth() {
    let data = three_blocks();
    let mut engine = MeanShift::new_with_threads(Euclidean, None, 4);
    let (_, centers) = engine.cluster(&data).unwrap();
    let bw = engine.bandwidth().unwrap();
    for i in 0..centers.len() {
        for j in 0..centers.len() {
            if i != j {
                assert!(Euclidean::distance_slice(&centers[i], &centers[j]) >= bw);
            }
        }
    }
}

#[test]
fn test_seeker_terminates_within_cap() {
    let data = dense_blob();
    let mut tree = SpatialIndex::new(3);
    for (i, row) in data.iter().enumerate() {
        tree.add(row.clone(), i);
    }
    for seed in 0..data.len() {
        let (_, support, iterations) = mean_shift_single::<Euclidean>(&data, &tree, seed, 1_000);
        assert!(iterations <= 300);
        assert!(support >= 1);
    }
}

#[test]
fn test_given_bandwidth_is_kept() {
    let data = three_blocks();
    let mut engine = MeanShift::new_with_threads(Euclidean, Some(5_000), 2);
    let (_, centers) = engine.cluster(&data).unwrap();
    assert_eq!(engine.bandwidth(), Some(5_000));
    assert_eq!(centers.len(), 3);
}

#[test]
fn test_all_seeds_degenerate_no_clusters_found() {
    // under dynamic time warping the moving mean is not bound to the
    // convex hull of its neighbors, so it can drift out of reach of every
    // point: here both seeds lose all neighbors after one step
    let data: Vec<Vec<i64>> = vec![vec![8, 10, -6], vec![10, -7, 2]];
    let mut engine = MeanShift::new_with_threads(DTW, Some(12), 2);
    assert_eq!(engine.cluster(&data), Err(MeanShiftError::NoClustersFound));
}

#[test]
fn test_zero_estimated_bandwidth_isolates_points() {
    // with three points the estimator uses one neighbor, which is the
    // point itself, so the estimated bandwidth is zero and every point
    // converges (at the iteration cap) to its own cluster
    let data: Vec<Vec<i64>> = vec![vec![0], vec![10], vec![30]];
    let mut engine = MeanShift::new_with_threads(Euclidean, None, 2);
    let (labels, centers) = engine.cluster(&data).unwrap();
    assert_eq!(engine.bandwidth(), Some(0));
    assert_eq!(centers, vec![vec![30], vec![10], vec![0]]);
    assert_eq!(labels, vec![2, 1, 0]);
}
