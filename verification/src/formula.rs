//! The distribution of a weighted sum of independent variables, each
//! uniform on `[0, 1]`, as a formula in exact arithmetic.
//!
//! For weights `a_1 .. a_N` and the sum `x` the distribution is
//!
//! ```text
//! F(x) = 1 / (a_1 * .. * a_N * N!) * sum over S of (-1)^|S| * max(0, x - sum of a_k, k in S)^N
//! ```
//!
//! where `S` runs over all subsets of the `N` indices. Weights are whole
//! numbers; a sample is a whole number of parts of which `scale` make up 1,
//! so that numerator and denominator are whole numbers.

use crate::arith::{clamped_power, power, spec_factorial};
use crate::subsets::{lemma_last_index, subset_size, subset_weight};
use vstd::arithmetic::power2::{lemma2_to64, lemma_pow2_pos, lemma_pow2_unfold, pow2};
use vstd::prelude::*;

verus! {

/// The sum of `w[k] * s[k]` over the first `n` indices.
pub open spec fn weighted_sum(w: Seq<u32>, s: Seq<u32>, n: int) -> int
    decreases n,
{
    if n <= 0 {
        0
    } else {
        weighted_sum(w, s, n - 1) + w[n - 1] * s[n - 1]
    }
}

/// The product of the first `n` weights.
pub open spec fn weight_product(w: Seq<u32>, n: int) -> int
    decreases n,
{
    if n <= 0 {
        1
    } else {
        weight_product(w, n - 1) * w[n - 1]
    }
}

/// The sum, over all subsets `S` of the weights, of `max(0, x - scale * (sum
/// of S))` to the power `e`, negated where `S` has an odd number of weights:
/// each weight is either left out, or taken from `x` with the sign changed.
pub open spec fn alternating_sum(w: Seq<u32>, x: int, scale: int, e: nat) -> int
    decreases w.len(),
{
    if w.len() == 0 {
        clamped_power(x, e)
    } else {
        alternating_sum(w.drop_last(), x, scale, e) - alternating_sum(
            w.drop_last(),
            x - scale * w.last(),
            scale,
            e,
        )
    }
}

/// The numerator of the distribution at the weighted sum of the samples, in
/// units of `1 / scale` to the power of the number of weights.
pub open spec fn cdf_numerator(w: Seq<u32>, s: Seq<u32>, scale: int) -> int {
    alternating_sum(w, weighted_sum(w, s, w.len() as int), scale, w.len())
}

/// The denominator that belongs to [`cdf_numerator`]: the product of the
/// weights, times the factorial of their number, times `scale` to the power
/// of their number.
pub open spec fn cdf_denominator(w: Seq<u32>, scale: int) -> int {
    power(scale, w.len()) * weight_product(w, w.len() as int) * spec_factorial(w.len())
}

/// The term of the subset `mask` of the weights: `max(0, x - scale * its
/// weight)` to the power `e`, negated where the subset's size is odd.
pub open spec fn subset_term(w: Seq<u32>, x: int, scale: int, mask: int, e: nat) -> int {
    let t = clamped_power(x - scale * subset_weight(w, mask, w.len() as int), e);
    if subset_size(mask, w.len() as int) % 2 == 0 {
        t
    } else {
        -t
    }
}

/// The sum of the terms of the masks `0 .. m`.
pub open spec fn signed_sum(w: Seq<u32>, x: int, scale: int, m: int, e: nat) -> int
    decreases m,
{
    if m <= 0 {
        0
    } else {
        signed_sum(w, x, scale, m - 1, e) + subset_term(w, x, scale, m - 1, e)
    }
}

proof fn lemma_last_weight_terms(w: Seq<u32>, x: int, scale: int, m: int, e: nat)
    requires
        w.len() >= 1,
        0 <= m < pow2((w.len() - 1) as nat),
    ensures
        subset_term(w, x, scale, m, e) == subset_term(w.drop_last(), x, scale, m, e),
        subset_term(w, x, scale, m + pow2((w.len() - 1) as nat), e) == -subset_term(
            w.drop_last(),
            x - scale * w.last(),
            scale,
            m,
            e,
        ),
{
    lemma_last_index(w, m);
    let z = subset_weight(w.drop_last(), m, w.len() - 1);
    let a = w.last() as int;
    assert(x - scale * (z + a) == (x - scale * a) - scale * z) by (nonlinear_arith);
}

proof fn lemma_last_weight_sums(w: Seq<u32>, x: int, scale: int, j: int, e: nat)
    requires
        w.len() >= 1,
        0 <= j <= pow2((w.len() - 1) as nat),
    ensures
        signed_sum(w, x, scale, j, e) == signed_sum(w.drop_last(), x, scale, j, e),
        signed_sum(w, x, scale, pow2((w.len() - 1) as nat) + j, e) == signed_sum(
            w,
            x,
            scale,
            pow2((w.len() - 1) as nat) as int,
            e,
        ) - signed_sum(w.drop_last(), x - scale * w.last(), scale, j, e),
    decreases j,
{
    if j > 0 {
        lemma_last_weight_sums(w, x, scale, j - 1, e);
        lemma_last_weight_terms(w, x, scale, j - 1, e);
    }
}

/// Running through the masks below `2^N` adds up the terms of all subsets:
/// the signed sum over the masks is the alternating sum over the subsets.
pub proof fn lemma_masks_cover_subsets(w: Seq<u32>, x: int, scale: int, e: nat)
    ensures
        signed_sum(w, x, scale, pow2(w.len()) as int, e) == alternating_sum(w, x, scale, e),
    decreases w.len(),
{
    lemma2_to64();
    if w.len() == 0 {
        reveal_with_fuel(signed_sum, 2);
        assert(subset_weight(w, 0, 0) == 0);
        assert(subset_size(0, 0) == 0);
        assert(scale * 0 == 0);
    } else {
        let k = (w.len() - 1) as nat;
        let half = pow2(k) as int;
        lemma_pow2_pos(k);
        lemma_pow2_unfold(w.len());
        lemma_last_weight_sums(w, x, scale, half, e);
        lemma_masks_cover_subsets(w.drop_last(), x, scale, e);
        lemma_masks_cover_subsets(w.drop_last(), x - scale * w.last(), scale, e);
    }
}

} // verus!
