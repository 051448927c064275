use vstd::prelude::*;
use crate::error::{length_error, length_error_seq, NNSearchError};

verus! {

/// Squared-difference sum of the first `i` coordinates of `a` and `b`.
///
/// Coordinates are fixed-point integers, so the Euclidean metric is
/// represented by the squared distance, which orders pairs exactly as the
/// real Euclidean distance does.
pub open spec fn sq_euclid_upto(a: Seq<i32>, b: Seq<i32>, i: int) -> int
    decreases i,
{
    if i <= 0 {
        0
    } else {
        sq_euclid_upto(a, b, i - 1) + (a[i - 1] - b[i - 1]) * (a[i - 1] - b[i - 1])
    }
}

/// Squared Euclidean distance between two equal-length coordinate sequences.
pub open spec fn sq_euclid(a: Seq<i32>, b: Seq<i32>) -> int {
    sq_euclid_upto(a, b, a.len() as int)
}

/// Number of positions among the first `i` where `a` and `b` differ.
pub open spec fn hamming_upto(a: Seq<bool>, b: Seq<bool>, i: int) -> int
    decreases i,
{
    if i <= 0 {
        0
    } else {
        hamming_upto(a, b, i - 1) + if a[i - 1] != b[i - 1] {
            1int
        } else {
            0int
        }
    }
}

/// Hamming distance between two equal-length bit sequences.
pub open spec fn hamming(a: Seq<bool>, b: Seq<bool>) -> int {
    hamming_upto(a, b, a.len() as int)
}

pub proof fn lemma_sq_euclid_upto_bound(a: Seq<i32>, b: Seq<i32>, i: int)
    requires
        0 <= i,
    ensures
        0 <= sq_euclid_upto(a, b, i) <= i * 0xFFFF_FFFE_0000_0001,
    decreases i,
{
    if i > 0 {
        lemma_sq_euclid_upto_bound(a, b, i - 1);
        let d = a[i - 1] - b[i - 1];
        assert(- 0xFFFF_FFFFint <= d <= 0xFFFF_FFFFint);
        assert(0 <= d * d <= 0xFFFF_FFFE_0000_0001) by (nonlinear_arith)
            requires
                - 0xFFFF_FFFFint <= d <= 0xFFFF_FFFFint,
        ;
        assert(i * 0xFFFF_FFFE_0000_0001 == (i - 1) * 0xFFFF_FFFE_0000_0001
            + 0xFFFF_FFFE_0000_0001) by (nonlinear_arith);
    }
}

pub proof fn lemma_hamming_upto_bound(a: Seq<bool>, b: Seq<bool>, i: int)
    requires
        0 <= i,
    ensures
        0 <= hamming_upto(a, b, i) <= i,
    decreases i,
{
    if i > 0 {
        lemma_hamming_upto_bound(a, b, i - 1);
    }
}

/// Squared Euclidean distance over fixed-point coordinates, computed
/// without overflow: every per-coordinate term is at most
/// `(u32::MAX)^2` and there are at most `usize::MAX` of them, so the
/// sum fits in a `u128`.
pub fn euclidean_sq(p1: &[i32], p2: &[i32]) -> (r: u128)
    requires
        p1@.len() == p2@.len(),
    ensures
        r as int == sq_euclid(p1@, p2@),
{
    let n = p1.len();
    let mut acc: u128 = 0;
    for i in 0..n
        invariant
            n == p1@.len() == p2@.len(),
            acc as int == sq_euclid_upto(p1@, p2@, i as int),
            acc as int <= i * 0xFFFF_FFFE_0000_0001,
    {
        let d: i64 = p1[i] as i64 - p2[i] as i64;
        proof {
            assert(0 <= (d as int) * (d as int) <= 0xFFFF_FFFE_0000_0001) by (nonlinear_arith)
                requires
                    - 0xFFFF_FFFFint <= d as int <= 0xFFFF_FFFFint,
            ;
        }
        let prod: i128 = (d as i128) * (d as i128);
        proof {
            assert((i + 1) * 0xFFFF_FFFE_0000_0001 <= 0xFFFF_FFFF_FFFF_FFFFint
                * 0xFFFF_FFFE_0000_0001) by (nonlinear_arith)
                requires
                    i + 1 <= 0xFFFF_FFFF_FFFF_FFFFint,
            ;
            assert((i + 1) * 0xFFFF_FFFE_0000_0001 == i * 0xFFFF_FFFE_0000_0001
                + 0xFFFF_FFFE_0000_0001) by (nonlinear_arith);
        }
        acc = acc + (prod as u128);
    }
    acc
}

/// Type of the distance between two objects.
#[derive(Clone, Copy, Debug, PartialEq, Eq, Structural)]
pub enum DistanceType {
    /// Euclidean distance over fixed-point coordinates (squared form).
    EUCLIDEAN,
}

/// The distance a graph configured with `dt` assigns to a pair of
/// equal-length coordinate sequences.
pub open spec fn metric_dist(dt: DistanceType, a: Seq<i32>, b: Seq<i32>) -> int {
    match dt {
        DistanceType::EUCLIDEAN => sq_euclid(a, b),
    }
}

/// Executable form of `metric_dist`.
pub fn compute_metric(dt: DistanceType, p1: &[i32], p2: &[i32]) -> (r: u128)
    requires
        p1@.len() == p2@.len(),
    ensures
        r as int == metric_dist(dt, p1@, p2@),
{
    match dt {
        DistanceType::EUCLIDEAN => euclidean_sq(p1, p2),
    }
}

/// A pairwise dissimilarity over two equal-length coordinate slices.
///
/// `compute` performs the length check shared by every metric and reports a
/// `ValueError` naming the two lengths when they differ; `compute_innter`
/// is the metric itself and should not be called directly by clients.
pub trait PairwiseDistance<T, U> {
    /// Inputs on which the metric is defined without overflow.
    spec fn fits(&self, p1: Seq<T>, p2: Seq<T>) -> bool;

    /// The value the metric assigns to a pair of equal-length sequences.
    spec fn dist_spec(&self, p1: Seq<T>, p2: Seq<T>) -> U;

    // NOTE: clients should not call this method directly. Use compute.
    fn compute_innter(&self, p1: &[T], p2: &[T]) -> (r: U)
        requires
            p1@.len() == p2@.len(),
            self.fits(p1@, p2@),
        ensures
            r == self.dist_spec(p1@, p2@),
    ;

    fn compute(&self, p1: &[T], p2: &[T]) -> (r: Result<U, NNSearchError>)
        requires
            p1@.len() == p2@.len() ==> self.fits(p1@, p2@),
        ensures
            r is Ok <==> p1@.len() == p2@.len(),
            r matches Ok(v) ==> v == self.dist_spec(p1@, p2@),
            r matches Err(e) ==> e matches NNSearchError::ValueError(m) && m@
                == length_error_seq(p1@.len(), p2@.len()),
    {
        if p1.len() != p2.len() {
            return Err(length_error(p1.len(), p2.len()));
        }
        Ok(self.compute_innter(p1, p2))
    }
}

/// The Euclidean metric over fixed-point coordinates, in squared form.
#[derive(Debug)]
pub struct Euclidean;

impl PairwiseDistance<i32, u128> for Euclidean {
    open spec fn fits(&self, p1: Seq<i32>, p2: Seq<i32>) -> bool {
        p1.len() <= usize::MAX
    }

    open spec fn dist_spec(&self, p1: Seq<i32>, p2: Seq<i32>) -> u128 {
        if sq_euclid(p1, p2) <= u128::MAX {
            sq_euclid(p1, p2) as u128
        } else {
            0
        }
    }

    fn compute_innter(&self, p1: &[i32], p2: &[i32]) -> (r: u128) {
        proof {
            lemma_sq_euclid_upto_bound(p1@, p2@, p1@.len() as int);
            assert(p1@.len() * 0xFFFF_FFFE_0000_0001 <= 0xFFFF_FFFF_FFFF_FFFFint
                * 0xFFFF_FFFE_0000_0001) by (nonlinear_arith)
                requires
                    p1@.len() <= 0xFFFF_FFFF_FFFF_FFFFnat,
            ;
        }
        euclidean_sq(p1, p2)
    }
}

/// The Hamming metric over bit vectors: the count of differing positions.
#[derive(Debug)]
pub struct Hamming;

impl PairwiseDistance<bool, u32> for Hamming {
    open spec fn fits(&self, p1: Seq<bool>, p2: Seq<bool>) -> bool {
        p1.len() <= u32::MAX
    }

    open spec fn dist_spec(&self, p1: Seq<bool>, p2: Seq<bool>) -> u32 {
        if hamming(p1, p2) <= u32::MAX {
            hamming(p1, p2) as u32
        } else {
            0
        }
    }

    fn compute_innter(&self, p1: &[bool], p2: &[bool]) -> (r: u32) {
        let n = p1.len();
        let mut dist: u32 = 0;
        for i in 0..n
            invariant
                n == p1@.len() == p2@.len(),
                n <= u32::MAX,
                dist as int == hamming_upto(p1@, p2@, i as int),
                dist as int <= i,
        {
            if p1[i] != p2[i] {
                dist = dist + 1;
            }
        }
        proof {
            lemma_hamming_upto_bound(p1@, p2@, p1@.len() as int);
        }
        dist
    }
}

} // verus!
