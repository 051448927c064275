use vstd::prelude::*;
use vstd::arithmetic::power2::{lemma2_to64, lemma_pow2_pos, lemma_pow2_unfold, pow2};
use vstd::arithmetic::div_mod::lemma_div_denominator;
use rand::rngs::SmallRng;
use rand::Rng;
use rand::SeedableRng;

verus! {

/// Declares rand's `SmallRng` so that it can appear in signatures; its
/// state stays opaque to the verifier.
#[verifier::external_type_specification]
#[verifier::external_body]
pub struct ExSmallRng(SmallRng);

/// Relies on rand's `SmallRng::seed_from_u64`: builds a small, seeded
/// pseudo-random generator. Nothing is promised of the values it will
/// produce.
#[verifier::external_body]
pub fn get_rng(seed: u64) -> SmallRng {
    SmallRng::seed_from_u64(seed)
}

/// Relies on rand's `Rng::gen_range` over `0..n`: the draw lies below `n`.
/// The range must be non-empty, as `gen_range` panics otherwise.
#[verifier::external_body]
pub(crate) fn gen_below(rng: &mut SmallRng, n: usize) -> (r: usize)
    requires
        n >= 1,
    ensures
        r < n,
{
    rng.gen_range(0..n)
}

/// Relies on rand's `seq::index::sample` with `amount == length`: it returns
/// exactly `n` distinct indices drawn from `0..n`, that is, a permutation of
/// `0..n` in some order.
#[verifier::external_body]
pub(crate) fn sample_permutation(rng: &mut SmallRng, n: usize) -> (r: Vec<usize>)
    ensures
        r@.len() == n,
        forall|i: int| 0 <= i < n ==> r@[i] < n,
        forall|i: int, j: int| 0 <= i < j < n ==> r@[i] != r@[j],
{
    rand::seq::index::sample(rng, n, n).into_vec()
}

/// Whether bit `i` of `v` is set.
pub open spec fn bit_at(v: nat, i: nat) -> bool {
    (v / pow2(i)) % 2 == 1
}

/// The lowest `b` bits of `value`, least significant first.
pub fn to_lowest_b_bit_vector(value: usize, b: usize) -> (r: Vec<bool>)
    ensures
        r@.len() == b,
        forall|i: int| 0 <= i < b ==> (r@[i] <==> bit_at(value as nat, i as nat)),
{
    let mut vec: Vec<bool> = Vec::new();
    let mut inter_value = value;
    proof {
        lemma2_to64();
    }
    for idx in 0..b
        invariant
            vec@.len() == idx,
            inter_value as int == value as int / pow2(idx as nat) as int,
            forall|i: int| 0 <= i < idx ==> (vec@[i] <==> bit_at(value as nat, i as nat)),
    {
        proof {
            lemma_pow2_pos(idx as nat);
        }
        if inter_value % 2 == 1 {
            vec.push(true);
        } else {
            vec.push(false);
        }
        proof {
            lemma_div_denominator(value as int, pow2(idx as nat) as int, 2);
            lemma_pow2_unfold((idx + 1) as nat);
        }
        inter_value = inter_value / 2;
    }
    vec
}

} // verus!
