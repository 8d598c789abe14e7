use std::cmp::Ordering;

use meanshift_rs::error::MeanShiftError;
use meanshift_rs::index::SpatialIndex;
use meanshift_rs::utils::{insert_sorted, isqrt_u128, SliceComp, SortedElement};
use meanshift_rs::Euclidean;

#[test]
fn test_slice_cmp_orders_lexicographically() {
    let a: Vec<i64> = vec![1, 2, 3];
    let b: Vec<i64> = vec![1, 2, 4];
    let c: Vec<i64> = vec![1, 2, 3];
    assert_eq!(a.slice_cmp(&b), Ordering::Less);
    assert_eq!(b.slice_cmp(&a), Ordering::Greater);
    assert_eq!(a.slice_cmp(&c), Ordering::Equal);
}

#[test]
fn test_sorted_element_insertion() {
    let mut v: Vec<SortedElement> = Vec::new();
    // results arriving out of key order are put back into key order
    for (key, value) in [(2usize, 20usize), (0, 0), (3, 30), (1, 10)] {
        insert_sorted(&mut v, SortedElement::new(key, value));
    }
    let keys: Vec<usize> = v.iter().map(|e| e.key).collect();
    let values: Vec<usize> = v.iter().map(|e| e.value).collect();
    assert_eq!(keys, vec![0, 1, 2, 3]);
    assert_eq!(values, vec![0, 10, 20, 30]);
}

#[test]
fn test_insert_sorted_keeps_first_on_equal_keys() {
    let mut v: Vec<SortedElement> = Vec::new();
    insert_sorted(&mut v, SortedElement::new(1, 100));
    insert_sorted(&mut v, SortedElement::new(1, 200));
    assert_eq!(v[0].value, 100);
    assert_eq!(v[1].value, 200);
}

#[test]
fn test_isqrt_exact_values() {
    assert_eq!(isqrt_u128(0), 0);
    assert_eq!(isqrt_u128(1), 1);
    assert_eq!(isqrt_u128(3), 1);
    assert_eq!(isqrt_u128(4), 2);
    assert_eq!(isqrt_u128(99), 9);
    assert_eq!(isqrt_u128(100), 10);
    assert_eq!(isqrt_u128(1_000_000_000_000_000_000_000_000), 1_000_000_000_000);
}

#[test]
fn test_error_messages() {
    assert_eq!(MeanShiftError::InvalidInput.message(), "invalid input");
    assert_eq!(MeanShiftError::PreconditionNotMet.message(), "precondition not met");
    assert_eq!(MeanShiftError::NoClustersFound.message(), "no clusters found");
}

#[test]
fn test_spatial_index_within_radius() {
    let mut tree = SpatialIndex::new(1);
    for (i, x) in [0i64, 10, 20, 5].iter().enumerate() {
        tree.add(vec![*x], i);
    }
    // squared Euclidean threshold 36 covers 0 and 5 around the query 4,
    // inclusive of the boundary at distance 6 from 10
    let ids = tree.within_ids::<Euclidean>(&vec![4], 36);
    assert_eq!(ids, vec![0, 1, 3]);
    let ids = tree.within_ids::<Euclidean>(&vec![4], 35);
    assert_eq!(ids, vec![0, 3]);
}

#[test]
fn test_spatial_index_k_nearest_order() {
    let mut tree = SpatialIndex::new(1);
    for (i, x) in [7i64, 1, 4, 7].iter().enumerate() {
        tree.add(vec![*x], i);
    }
    // nearest to 6: 7 (twice, insertion order breaks the tie), then 4
    let kn = tree.k_nearest::<Euclidean>(&vec![6], 3);
    assert_eq!(kn, vec![(1, 0), (1, 3), (4, 2)]);
    // asking for more neighbors than rows returns them all, sorted
    let kn = tree.k_nearest::<Euclidean>(&vec![6], 10);
    assert_eq!(kn.len(), 4);
    assert_eq!(kn[3], (25, 1));
}
