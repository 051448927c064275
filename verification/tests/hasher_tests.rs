use nnsearch::hasher::{BBitMinHash, Hasher, MinHash};

#[test]
fn test_minhash() {
    let k = 3;
    let dim = 5;
    let minhash = MinHash::new(k, dim);
    let v1: Vec<usize> = vec![1, 2, 4];
    let hashed_v1 = minhash.to_hash(&v1);
    assert_eq!(hashed_v1.len(), k);
}

#[test]
fn test_minhash_values_are_permutation_entries() {
    let k = 4;
    let dim = 6;
    let minhash = MinHash::new(k, dim);
    let v: Vec<usize> = vec![0, 3];
    let hash = minhash.to_hash(&v);
    // Each row's hash is a permutation value at a member position, so it
    // lies in 1..=dim; a freshly seeded matrix never returns the default.
    for h in hash {
        assert!(h >= 1 && h <= dim);
    }
}

#[test]
fn test_minhash_empty_set_hashes_to_default() {
    let k = 2;
    let dim = 4;
    let minhash = MinHash::new(k, dim);
    let hash = minhash.to_hash(&Vec::<usize>::new());
    assert_eq!(hash, vec![dim, dim]);
}

#[test]
fn test_minhash_is_deterministic() {
    let a = MinHash::new(3, 5).to_hash(&vec![1, 2, 4]);
    let b = MinHash::new(3, 5).to_hash(&vec![1, 2, 4]);
    assert_eq!(a, b);
}

#[test]
fn test_bbit_minhash() {
    let hasher = BBitMinHash {};
    assert_eq!(hasher.to_hash(&vec![0, 5]), vec![true]);
    assert_eq!(hasher.to_hash(&vec![3]), vec![false]);
}
