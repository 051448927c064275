use nnsearch::index::{NSWIndex, NaiveKnnIndex};
use nnsearch::linalg::distance::DistanceType;

// All vectors are written in the index's fixed-point coordinates at scale
// 10 (one tenth per unit, so 2.0 -> 20), which preserves the Euclidean
// distance ordering exactly.

#[test]
fn test_naive_index() {
    let mut index = NaiveKnnIndex { dim: 2, distance: DistanceType::EUCLIDEAN, points: vec![] };
    index.add(vec![1, 2]).unwrap();
    index.add(vec![1, 1]).unwrap();
    let result = index.search(vec![1, 1], 2).unwrap();
    assert_eq!(result, vec![1, 0]);
    let result = index.search(vec![10, 20], 2).unwrap();
    assert_eq!(result, vec![0, 1]);
    let result = index.search(vec![10, 20], 1).unwrap();
    assert_eq!(result, vec![0]);
}

#[test]
fn test_nsw_index() {
    // node size < k
    let mut index = NSWIndex::new(2, DistanceType::EUCLIDEAN, 3, 4, 46);
    index.add(vec![1, 2]).unwrap();
    index.add(vec![1, 1]).unwrap();
    let result = index.search(vec![1, 1], 2).unwrap();
    assert_eq!(result, vec![1, 0]);
    let result = index.search(vec![10, 20], 2).unwrap();
    assert_eq!(result, vec![0, 1]);
    let result = index.search(vec![10, 20], 1).unwrap();
    assert_eq!(result, vec![0]);
}

#[test]
fn test_nsw_index_dryrun() {
    // node size > k
    let mut index = NSWIndex::new(2, DistanceType::EUCLIDEAN, 3, 4, 46);
    index.add(vec![1, 2]).unwrap();
    index.add(vec![1, 3]).unwrap();
    index.add(vec![1, 4]).unwrap();
    index.add(vec![1, 5]).unwrap();
    index.add(vec![1, 6]).unwrap();
    index.add(vec![1, 7]).unwrap();
    index.search(vec![1, 1], 2).unwrap();
}

#[test]
fn index_test_naive_index() {
    let mut index = NaiveKnnIndex { dim: 2, distance: DistanceType::EUCLIDEAN, points: vec![] };
    index.add(vec![1, 2]).unwrap();
    index.add(vec![1, 1]).unwrap();
    let result = index.search(vec![1, 1], 2).unwrap();
    assert_eq!(result, vec![1, 0]);
    let result = index.search(vec![10, 20], 2).unwrap();
    assert_eq!(result, vec![0, 1]);
    let result = index.search(vec![10, 20], 1).unwrap();
    assert_eq!(result, vec![0]);
}

#[test]
fn index_test_nsw_index() {
    let mut index = NSWIndex::new(2, DistanceType::EUCLIDEAN, 3, 4, 46);
    index.add(vec![1, 2]).unwrap();
    index.add(vec![1, 1]).unwrap();
    let result = index.search(vec![1, 1], 2).unwrap();
    assert_eq!(result, vec![1, 0]);
    let result = index.search(vec![10, 20], 2).unwrap();
    assert_eq!(result, vec![0, 1]);
    let result = index.search(vec![10, 20], 1).unwrap();
    assert_eq!(result, vec![0]);
}

#[test]
fn index_test_nsw_index_dryrun() {
    let mut index = NSWIndex::new(2, DistanceType::EUCLIDEAN, 3, 4, 46);
    index.add(vec![1, 2]).unwrap();
    index.add(vec![1, 3]).unwrap();
    index.add(vec![1, 4]).unwrap();
    index.add(vec![1, 5]).unwrap();
    index.add(vec![1, 6]).unwrap();
    index.add(vec![1, 7]).unwrap();
    let result = index.search(vec![1, 1], 2).unwrap();
    // The two nearest stored vectors are the first two inserted.
    assert_eq!(result, vec![0, 1]);
}

#[test]
fn test_nsw_index_ids_are_sequential() {
    let mut index = NSWIndex::new(2, DistanceType::EUCLIDEAN, 3, 1, 9);
    assert_eq!(index.add(vec![0, 0]).unwrap(), 0);
    assert_eq!(index.add(vec![5, 5]).unwrap(), 1);
    assert_eq!(index.add(vec![9, 9]).unwrap(), 2);
}

#[test]
fn test_nsw_index_dimension_mismatch_leaves_index_unchanged() {
    let mut index = NSWIndex::new(2, DistanceType::EUCLIDEAN, 3, 4, 46);
    index.add(vec![1, 2]).unwrap();
    let err = index.add(vec![1, 2, 3]).unwrap_err();
    assert_eq!(
        err,
        nnsearch::error::NNSearchError::ValueError("Inconsistent length: 3 != 2".to_string())
    );
    // The failed insert neither stored the vector nor advanced the id
    // counter: the next insert still gets id 1.
    assert_eq!(index.add(vec![1, 3]).unwrap(), 1);
}

#[test]
fn test_nsw_search_dimension_mismatch() {
    let mut index = NSWIndex::new(2, DistanceType::EUCLIDEAN, 3, 4, 46);
    index.add(vec![1, 2]).unwrap();
    let err = index.search(vec![1, 2, 3], 1).unwrap_err();
    assert_eq!(
        err,
        nnsearch::error::NNSearchError::ValueError("Inconsistent length: 3 != 2".to_string())
    );
}

#[test]
fn test_search_returns_all_sorted_when_k_at_least_size() {
    // With k >= size the engine returns every stored id, ordered by
    // ascending true distance to the query.
    let mut index = NSWIndex::new(1, DistanceType::EUCLIDEAN, 2, 1, 11);
    index.add(vec![50]).unwrap();
    index.add(vec![10]).unwrap();
    index.add(vec![30]).unwrap();
    let result = index.search(vec![12], 10).unwrap();
    assert_eq!(result, vec![1, 2, 0]);
}

#[test]
fn test_search_equal_distances_break_ties_by_id() {
    // Two stored vectors at the same distance from the query come back in
    // id order, and both survive despite the equal distance.
    let mut index = NSWIndex::new(1, DistanceType::EUCLIDEAN, 2, 1, 5);
    index.add(vec![4]).unwrap();
    index.add(vec![8]).unwrap();
    let result = index.search(vec![6], 5).unwrap();
    assert_eq!(result, vec![0, 1]);
}

#[test]
fn test_search_empty_index() {
    let index = NSWIndex::new(2, DistanceType::EUCLIDEAN, 3, 4, 46);
    let result = index.search(vec![1, 1], 3).unwrap();
    assert_eq!(result, Vec::<usize>::new());
}

#[test]
fn test_naive_add_batch() {
    let mut index = NaiveKnnIndex { dim: 1, distance: DistanceType::EUCLIDEAN, points: vec![] };
    index.add_batch(vec![vec![7], vec![3], vec![5]]).unwrap();
    let result = index.search(vec![4], 3).unwrap();
    assert_eq!(result, vec![1, 2, 0]);
}

#[test]
fn test_nsw_add_batch() {
    let mut index = NSWIndex::new(1, DistanceType::EUCLIDEAN, 2, 1, 3);
    index.add_batch(vec![vec![7], vec![3], vec![5]]).unwrap();
    let result = index.search(vec![4], 3).unwrap();
    assert_eq!(result, vec![1, 2, 0]);
}
