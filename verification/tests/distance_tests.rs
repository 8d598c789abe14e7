use meanshift_rs::distance_measure::dtw::dtw;
use meanshift_rs::DistanceMeasure;
use meanshift_rs::{Euclidean, Manhattan, DTW};

const SCALE: f64 = 100_000_000.0;

fn scaled(values: &[f64]) -> Vec<i64> {
    values.iter().map(|v| (v * SCALE).round() as i64).collect()
}

#[test]
fn test_dtw_same_lengths() {
    let a = [
        0.94267613, 0.81582009, 0.63859374, 0.94131796, 0.67312447, 0.3352634, 0.19988981,
        0.3344863, 0.77753481, 0.92335297,
    ];
    let b = [
        0.97218557, 0.56986568, 0.53248448, 0.67804195, 0.76575266, 0.19385823, 0.26328398,
        0.44685084, 0.90686694, 0.75495287,
    ];

    let distance = DTW::distance_slice(&scaled(&a), &scaled(&b)) as f64 / SCALE;
    assert!((distance - 1.28325005).abs() < 1e-7)
}

#[test]
fn test_dtw_different_lengths() {
    let a = [
        0.16023953, 0.59981172, 0.86456616, 0.80691057, 0.1036448, 0.48439886, 0.42657487,
        0.17077501, 0.31801489, 0.90125957,
    ];
    let b = [0.37957006, 0.90812822, 0.2398513, 0.23456596, 0.43191211];

    let distance = DTW::distance_slice(&scaled(&a), &scaled(&b)) as f64 / SCALE;
    assert!((distance - 1.75368531).abs() < 1e-7)
}

#[test]
fn test_dtw_cost_exact() {
    // series (0, 1, 2) against (0, 2): the cheapest warping path matches
    // 0-0, 1-2, 2-2 with cost 0 + 1 + 0.
    let a: Vec<i64> = vec![0, 1, 2];
    let b: Vec<i64> = vec![0, 2];
    assert_eq!(dtw(&a, &b), 1);
    assert_eq!(DTW::distance_slice(&a, &b), 1);
}

#[test]
fn test_dtw_empty_is_zero() {
    let a: Vec<i64> = vec![];
    let b: Vec<i64> = vec![1, 2, 3];
    assert_eq!(dtw(&a, &b), 0);
    assert_eq!(dtw(&b, &a), 0);
}

#[test]
fn test_euclidean_exact_345() {
    // the 3-4-5 triangle, exactly
    let a: Vec<i64> = vec![0, 0];
    let b: Vec<i64> = vec![3, 4];
    assert_eq!(Euclidean::distance_slice(&a, &b), 5);
    assert_eq!(Euclidean::optimized(&a, &b), 25);
}

#[test]
fn test_euclidean_distance_floor() {
    // sqrt(2) floors to 1 in unscaled units
    let a: Vec<i64> = vec![0, 0];
    let b: Vec<i64> = vec![1, 1];
    assert_eq!(Euclidean::distance_slice(&a, &b), 1);
}

#[test]
fn test_manhattan_exact() {
    let a: Vec<i64> = vec![1, -2, 3];
    let b: Vec<i64> = vec![-1, 2, 0];
    assert_eq!(Manhattan::distance_slice(&a, &b), 2 + 4 + 3);
    assert_eq!(Manhattan::optimized(&a, &b), 9);
}

#[test]
fn test_mean_truncates_toward_zero() {
    let points: Vec<Vec<i64>> = vec![vec![1, -1], vec![2, -2], vec![4, -4]];
    // 7 / 3 truncates to 2; -7 / 3 truncates to -2
    assert_eq!(Euclidean::mean(&points), vec![2, -2]);
}

#[test]
fn test_strategy_names() {
    assert_eq!(Euclidean::name(), "minkowski");
    assert_eq!(Manhattan::name(), "manhattan");
    assert_eq!(DTW::name(), "dtw");
}
