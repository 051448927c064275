use nnsearch::error::NNSearchError;
use nnsearch::linalg::distance::{Euclidean, Hamming, PairwiseDistance};
use nnsearch::linalg::utils::to_lowest_b_bit_vector;

#[test]
fn test_compute_euclidean_distance() {
    let dist = Euclidean {};
    // Fixed-point form of [0.1, 0.2] and [0.3, 0.4] at scale 10; the metric
    // reports the squared distance: (1-3)^2 + (2-4)^2 = 8.
    let v1: Vec<i32> = vec![1, 2];
    let v2: Vec<i32> = vec![3, 4];
    assert_eq!(dist.compute(&v1, &v2).unwrap(), 8);
}

#[test]
fn test_value_error_compute_euclidean_distance() {
    let dist = Euclidean {};
    let v1: Vec<i32> = vec![1, 2];
    let v2: Vec<i32> = vec![3];
    assert_eq!(
        dist.compute(&v1, &v2).unwrap_err(),
        NNSearchError::ValueError("Inconsistent length: 2 != 1".to_string())
    );
}

#[test]
fn test_compute_hamming_distance() {
    let dist = Hamming {};
    // 01001101
    let v1 = vec![false, true, false, false, true, true, false, true];
    // 10111100
    let v2 = vec![true, false, true, true, true, true, false, false];
    assert_eq!(dist.compute(&v1, &v2).unwrap(), 5);
}

#[test]
fn test_euclidean_zero_at_equal() {
    let dist = Euclidean {};
    let v: Vec<i32> = vec![4, -7, 12];
    assert_eq!(dist.compute(&v, &v).unwrap(), 0);
}

#[test]
fn test_euclidean_symmetry() {
    let dist = Euclidean {};
    let a: Vec<i32> = vec![-5, 3, 100];
    let b: Vec<i32> = vec![8, -2, 90];
    assert_eq!(dist.compute(&a, &b).unwrap(), dist.compute(&b, &a).unwrap());
}

#[test]
fn test_euclidean_extreme_coordinates() {
    let dist = Euclidean {};
    // The widest possible per-coordinate gap: (i32::MAX - i32::MIN)^2.
    let a: Vec<i32> = vec![i32::MAX];
    let b: Vec<i32> = vec![i32::MIN];
    assert_eq!(dist.compute(&a, &b).unwrap(), 0xFFFF_FFFE_0000_0001u128);
}

#[test]
fn test_hamming_length_mismatch() {
    let dist = Hamming {};
    let v1 = vec![true];
    let v2 = vec![true, false, true];
    assert_eq!(
        dist.compute(&v1, &v2).unwrap_err(),
        NNSearchError::ValueError("Inconsistent length: 1 != 3".to_string())
    );
}

#[test]
fn test_to_lowest_b_bit_vector() {
    assert_eq!(to_lowest_b_bit_vector(7, 2), vec![true, true]);
    assert_eq!(to_lowest_b_bit_vector(6, 2), vec![false, true]);
    assert_eq!(to_lowest_b_bit_vector(8, 2), vec![false, false]);
    assert_eq!(to_lowest_b_bit_vector(12, 4), vec![false, false, true, true]);
    assert_eq!(
        to_lowest_b_bit_vector(12, 5),
        vec![false, false, true, true, false]
    );
}

#[test]
fn test_to_lowest_b_bit_vector_empty() {
    assert_eq!(to_lowest_b_bit_vector(9, 0), Vec::<bool>::new());
}
