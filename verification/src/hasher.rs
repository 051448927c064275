use vstd::prelude::*;
use crate::linalg::utils::{get_rng, sample_permutation};

verus! {

/// A locality-sensitive hasher: maps an input slice to a fixed-length hash
/// vector. Each implementation states on which inputs it is defined and
/// what hash it produces.
pub trait Hasher<T, U> {
    /// Inputs the hasher accepts.
    spec fn hash_req(&self, input: Seq<T>) -> bool;

    /// The hash vector produced for an accepted input.
    spec fn hash_spec(&self, input: Seq<T>) -> Seq<U>;

    fn to_hash(&self, input: &[T]) -> (r: Vec<U>)
        requires
            self.hash_req(input@),
        ensures
            r@ == self.hash_spec(input@),
    ;
}

/// Minimum of the first `i` permutation values whose position belongs to
/// the input set, starting from the default `dflt` (the dimensionality).
pub open spec fn row_min_upto(row: Seq<i32>, input: Seq<usize>, i: int, dflt: int) -> int
    decreases i,
{
    if i <= 0 {
        dflt
    } else {
        let prev = row_min_upto(row, input, i - 1, dflt);
        if input.contains((i - 1) as usize) && row[i - 1] < prev {
            row[i - 1] as int
        } else {
            prev
        }
    }
}

fn contains_usize(s: &[usize], x: usize) -> (r: bool)
    ensures
        r == s@.contains(x),
{
    let n = s.len();
    for i in 0..n
        invariant
            n == s@.len(),
            forall|j: int| 0 <= j < i ==> s@[j] != x,
    {
        if s[i] == x {
            proof {
                assert(s@[i as int] == x);
            }
            return true;
        }
    }
    proof {
        assert(!s@.contains(x)) by {
            if s@.contains(x) {
                let j = choose|j: int| 0 <= j < s@.len() && s@[j] == x;
                assert(s@[j] != x);
            }
        }
    }
    false
}

/// MinHash over sets of positions: each of `k` rows holds a random
/// permutation of `1..=dim`, and the hash of an input set is, per row, the
/// least permutation value at a member position (or `dim` for the empty
/// set).
#[derive(Debug)]
pub struct MinHash {
    pi_mat: Vec<Vec<i32>>,
    k: usize,
    dim: usize,
}

impl MinHash {
    /// Number of hash rows.
    pub closed spec fn k_spec(&self) -> nat {
        self.k as nat
    }

    /// Size of the universe of set members.
    pub closed spec fn dim_spec(&self) -> nat {
        self.dim as nat
    }

    /// The permutation matrix: `k` rows of `dim` values, each in
    /// `1..=dim`.
    pub closed spec fn wf(&self) -> bool {
        &&& self.pi_mat@.len() == self.k_spec()
        &&& self.dim <= i32::MAX
        &&& forall|r: int|
            0 <= r < self.pi_mat@.len() ==> (#[trigger] self.pi_mat@[r])@.len()
                == self.dim_spec()
        &&& forall|r: int, j: int|
            0 <= r < self.pi_mat@.len() && 0 <= j < self.pi_mat@[r]@.len() ==> 1 <= (
            #[trigger] self.pi_mat@[r]@[j]) <= self.dim
    }

    /// The hash assigned to an input set, row by row.
    pub closed spec fn minhash_spec(&self, input: Seq<usize>) -> Seq<usize> {
        Seq::new(
            self.k_spec(),
            |r: int|
                row_min_upto(
                    self.pi_mat@[r]@,
                    input,
                    self.dim as int,
                    self.dim as int,
                ) as usize,
        )
    }

    /// Build `k` random permutation rows over a universe of `dim`
    /// positions, from a fixed seed.
    pub fn new(k: usize, dim: usize) -> (r: Self)
        requires
            dim < i32::MAX,
        ensures
            r.wf(),
            r.k_spec() == k,
            r.dim_spec() == dim,
    {
        let mut pi_mat: Vec<Vec<i32>> = Vec::new();
        let mut rng = get_rng(46);
        for row in 0..k
            invariant
                dim < i32::MAX,
                pi_mat@.len() == row,
                forall|r: int|
                    0 <= r < pi_mat@.len() ==> (#[trigger] pi_mat@[r])@.len() == dim,
                forall|r: int, j: int|
                    0 <= r < pi_mat@.len() && 0 <= j < pi_mat@[r]@.len() ==> 1 <= (
                    #[trigger] pi_mat@[r]@[j]) <= dim,
        {
            let permutation_idx = sample_permutation(&mut rng, dim);
            let mut slice_row: Vec<i32> = Vec::new();
            for j in 0..dim
                invariant
                    permutation_idx@.len() == dim,
                    dim < i32::MAX,
                    forall|t: int| 0 <= t < dim ==> permutation_idx@[t] < dim,
                    slice_row@.len() == j,
                    forall|t: int|
                        0 <= t < slice_row@.len() ==> 1 <= (#[trigger] slice_row@[t]) <= dim,
            {
                slice_row.push((permutation_idx[j] + 1) as i32);
            }
            pi_mat.push(slice_row);
        }
        MinHash { pi_mat, k, dim }
    }
}

impl Hasher<usize, usize> for MinHash {
    closed spec fn hash_req(&self, input: Seq<usize>) -> bool {
        &&& self.wf()
        &&& forall|t: int| 0 <= t < input.len() ==> (#[trigger] input[t]) < self.dim_spec()
    }

    closed spec fn hash_spec(&self, input: Seq<usize>) -> Seq<usize> {
        self.minhash_spec(input)
    }

    fn to_hash(&self, input: &[usize]) -> (r: Vec<usize>) {
        let mut hash: Vec<usize> = Vec::new();
        let k = self.k;
        let dim = self.dim;
        for row in 0..k
            invariant
                self.wf(),
                k == self.k,
                dim == self.dim,
                hash@.len() == row,
                forall|r: int|
                    0 <= r < row ==> (#[trigger] hash@[r]) == row_min_upto(
                        self.pi_mat@[r]@,
                        input@,
                        dim as int,
                        dim as int,
                    ) as usize,
        {
            let mut acc: usize = dim;
            for j in 0..dim
                invariant
                    self.wf(),
                    k == self.k,
                    dim == self.dim,
                    row < k,
                    acc as int == row_min_upto(
                        self.pi_mat@[row as int]@,
                        input@,
                        j as int,
                        dim as int,
                    ),
            {
                if contains_usize(input, j) {
                    let v = self.pi_mat[row][j];
                    if (v as usize) < acc {
                        acc = v as usize;
                    }
                }
            }
            hash.push(acc);
        }
        proof {
            assert(hash@ =~= self.minhash_spec(input@));
        }
        hash
    }
}

/// A placeholder b-bit reduction of a hash vector: only the first entry is
/// compared against zero.
#[derive(Debug)]
pub struct BBitMinHash {}

impl Hasher<i32, bool> for BBitMinHash {
    open spec fn hash_req(&self, input: Seq<i32>) -> bool {
        input.len() >= 1
    }

    open spec fn hash_spec(&self, input: Seq<i32>) -> Seq<bool> {
        seq![input[0] == 0]
    }

    fn to_hash(&self, input: &[i32]) -> (r: Vec<bool>) {
        let mut r: Vec<bool> = Vec::new();
        r.push(input[0] == 0);
        proof {
            assert(r@ =~= seq![input@[0] == 0i32]);
        }
        r
    }
}

} // verus!
