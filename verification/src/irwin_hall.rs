//! The cumulative distribution of a weighted sum of independent variables,
//! each uniform on `[0, 1]`, evaluated in 128-bit integers.

use crate::arith::{
    checked_power, lemma_power_base_monotone, lemma_power_nonnegative, lemma_power_of_product,
    power, spec_factorial,
};
use crate::distribution::lemma_cdf_bounded;
use crate::formula::{
    cdf_denominator, cdf_numerator, lemma_masks_cover_subsets, signed_sum, subset_term,
    weight_product, weighted_sum,
};
use crate::subsets::{
    lemma_subset_weight_bound, subset_count, subset_of, subset_weight, MAX_VARIABLES,
};
use vstd::arithmetic::power2::{lemma2_to64, lemma_pow2_unfold, pow2};
use vstd::prelude::*;

verus! {

/// Whether the evaluation stays within 128-bit integers: twice the weighted
/// sum, to the power of the number of weights, bounds every partial sum of
/// terms.
pub open spec fn cdf_fits(w: Seq<u32>, s: Seq<u32>, scale: int) -> bool {
    &&& w.len() <= MAX_VARIABLES
    &&& power(2 * weighted_sum(w, s, w.len() as int), w.len()) <= i128::MAX
    &&& cdf_denominator(w, scale) <= i128::MAX
}

/// Why an evaluation was refused.
#[derive(Clone, Copy, Debug, PartialEq, Eq, Structural)]
pub enum CdfError {
    /// `scale` is 0.
    ZeroScale,
    /// A weight is 0.
    ZeroWeight,
    /// A sample is greater than `scale`, that is, greater than 1.
    SampleAboveScale,
    /// There are more than [`MAX_VARIABLES`] variables, or the evaluation
    /// does not fit 128-bit integers.
    TooLarge,
}

/// A fraction `num / den` with a positive denominator.
#[derive(Clone, Copy, Debug, PartialEq, Eq, Structural)]
pub struct Ratio {
    pub num: i128,
    pub den: i128,
}

/// What [`cdf_irwin_hall`] returns.
pub open spec fn cdf_outcome(w: Seq<u32>, s: Seq<u32>, scale: int) -> Result<Ratio, CdfError> {
    if scale == 0 {
        Err(CdfError::ZeroScale)
    } else if exists|k: int| 0 <= k < w.len() && w[k] == 0 {
        Err(CdfError::ZeroWeight)
    } else if exists|k: int| 0 <= k < s.len() && s[k] > scale {
        Err(CdfError::SampleAboveScale)
    } else if !cdf_fits(w, s, scale) {
        Err(CdfError::TooLarge)
    } else {
        Ok(Ratio { num: cdf_numerator(w, s, scale) as i128, den: cdf_denominator(w, scale) as i128 })
    }
}

proof fn lemma_term_bound(w: Seq<u32>, x: int, scale: int, mask: int, e: nat)
    requires
        x >= 0,
        scale >= 0,
    ensures
        -power(x, e) <= subset_term(w, x, scale, mask, e) <= power(x, e),
{
    let z = subset_weight(w, mask, w.len() as int);
    lemma_subset_weight_bound(w, mask, w.len() as int);
    assert(scale * z >= 0) by (nonlinear_arith)
        requires
            scale >= 0,
            z >= 0,
    ;
    let d = x - scale * z;
    let t = if d > 0 {
        d
    } else {
        0
    };
    lemma_power_base_monotone(t, x, e);
}

/// The product of `scale * w[k] * (k + 1)` over the first `n` indices.
spec fn denominator_upto(w: Seq<u32>, scale: int, n: int) -> int
    decreases n,
{
    if n <= 0 {
        1
    } else {
        denominator_upto(w, scale, n - 1) * (scale * w[n - 1] * n)
    }
}

proof fn lemma_denominator_upto(w: Seq<u32>, scale: int, n: int)
    requires
        0 <= n <= w.len(),
    ensures
        denominator_upto(w, scale, n) == power(scale, n as nat) * weight_product(w, n)
            * spec_factorial(n as nat),
    decreases n,
{
    if n > 0 {
        lemma_denominator_upto(w, scale, n - 1);
        let p = power(scale, (n - 1) as nat);
        let q = weight_product(w, n - 1);
        let f = spec_factorial((n - 1) as nat);
        let a = w[n - 1] as int;
        assert((p * q * f) * (scale * a * n) == (scale * p) * (q * a) * (n * f))
            by (nonlinear_arith);
    }
}

proof fn lemma_denominator_grows(w: Seq<u32>, scale: int, a: int, b: int)
    requires
        0 <= a <= b <= w.len(),
        scale >= 1,
        forall|k: int| 0 <= k < w.len() ==> w[k] >= 1,
    ensures
        1 <= denominator_upto(w, scale, a) <= denominator_upto(w, scale, b),
    decreases b,
{
    if b == 0 {
    } else {
        if a < b {
            lemma_denominator_grows(w, scale, a, b - 1);
        } else {
            lemma_denominator_grows(w, scale, a - 1, b - 1);
        }
        let d = denominator_upto(w, scale, b - 1);
        let x = w[b - 1] as int;
        assert(d <= d * (scale * x * b)) by (nonlinear_arith)
            requires
                d >= 1,
                scale >= 1,
                x >= 1,
                b >= 1,
        ;
    }
}

/// The denominator, or `None` where it exceeds an `i128`.
fn denominator<const N: usize>(weights: &[u32; N], scale: u32) -> (d: Option<i128>)
    requires
        N <= MAX_VARIABLES,
        scale >= 1,
        forall|k: int| 0 <= k < N ==> weights@[k] >= 1,
    ensures
        d.is_some() == (cdf_denominator(weights@, scale as int) <= i128::MAX),
        d matches Some(v) ==> v == cdf_denominator(weights@, scale as int) && v >= 1,
{
    let mut acc: i128 = 1;
    let mut k: usize = 0;
    while k < N
        invariant
            k <= N <= MAX_VARIABLES,
            weights@.len() == N,
            scale >= 1,
            forall|c: int| 0 <= c < N ==> weights@[c] >= 1,
            acc == denominator_upto(weights@, scale as int, k as int),
            acc >= 1,
        decreases N - k,
    {
        let a = weights[k];
        assert(scale * a * (k + 1) <= 0xffff_fffe_0000_0001 * 31 && scale * a * (k + 1) >= 1)
            by (nonlinear_arith)
            requires
                1 <= scale <= 0xffff_ffff,
                1 <= a <= 0xffff_ffff,
                0 <= k < 31,
        ;
        assert(scale * a <= 0xffff_fffe_0000_0001) by (nonlinear_arith)
            requires
                1 <= scale <= 0xffff_ffff,
                1 <= a <= 0xffff_ffff,
        ;
        let factor: i128 = (scale as i128) * (a as i128) * ((k + 1) as i128);
        proof {
            lemma_denominator_grows(weights@, scale as int, (k + 1) as int, N as int);
            lemma_denominator_grows(weights@, scale as int, 0, (k + 1) as int);
        }
        match acc.checked_mul(factor) {
            Some(next) => {
                acc = next;
            },
            None => {
                proof {
                    lemma_denominator_upto(weights@, scale as int, N as int);
                }
                return None;
            },
        }
        k += 1;
    }
    proof {
        lemma_denominator_upto(weights@, scale as int, N as int);
    }
    Some(acc)
}

/// The weighted sum of the samples.
fn weighted_total<const N: usize>(weights: &[u32; N], samples: &[u32; N]) -> (x: i128)
    requires
        N <= MAX_VARIABLES,
    ensures
        x == weighted_sum(weights@, samples@, N as int),
        0 <= x <= N * 0xffff_fffe_0000_0001,
{
    let mut x: i128 = 0;
    let mut k: usize = 0;
    while k < N
        invariant
            k <= N <= MAX_VARIABLES,
            weights@.len() == N,
            samples@.len() == N,
            x == weighted_sum(weights@, samples@, k as int),
            0 <= x <= k * 0xffff_fffe_0000_0001,
        decreases N - k,
    {
        let a = weights[k];
        let u = samples[k];
        assert(0 <= a * u <= 0xffff_fffe_0000_0001) by (nonlinear_arith)
            requires
                0 <= a <= 0xffff_ffff,
                0 <= u <= 0xffff_ffff,
        ;
        x = x + (a as i128) * (u as i128);
        k += 1;
    }
    x
}

/// The distribution of the weighted sum of independent uniform variables,
/// taken at the weighted sum of `samples`, as an exact fraction.
///
/// `weights[k]` is the weight of variable `k` and `samples[k] / scale` its
/// value. The result is `cdf_numerator / cdf_denominator`. An input outside
/// the domain is answered with the first of these errors that applies: a
/// `scale` of 0, a weight of 0, a sample above `scale`, an evaluation that is
/// too large. The evaluation visits all `2^N` subsets of the variables.
pub fn cdf_irwin_hall<const N: usize>(
    weights: &[u32; N],
    samples: [u32; N],
    scale: u32,
) -> (r: Result<Ratio, CdfError>)
    ensures
        r == cdf_outcome(weights@, samples@, scale as int),
        r matches Ok(q) ==> 0 <= q.num <= q.den && q.den >= 1,
{
    if scale == 0 {
        return Err(CdfError::ZeroScale);
    }
    let mut k: usize = 0;
    while k < N
        invariant
            k <= N,
            scale != 0,
            weights@.len() == N,
            forall|c: int| 0 <= c < k ==> weights@[c] != 0,
        decreases N - k,
    {
        if weights[k] == 0 {
            assert(weights@[k as int] == 0);
            return Err(CdfError::ZeroWeight);
        }
        k += 1;
    }
    let mut k: usize = 0;
    while k < N
        invariant
            k <= N,
            scale != 0,
            weights@.len() == N,
            samples@.len() == N,
            forall|c: int| 0 <= c < N ==> weights@[c] != 0,
            forall|c: int| 0 <= c < k ==> samples@[c] <= scale,
        decreases N - k,
    {
        if samples[k] > scale {
            assert(samples@[k as int] > scale);
            return Err(CdfError::SampleAboveScale);
        }
        k += 1;
    }
    if N > MAX_VARIABLES {
        return Err(CdfError::TooLarge);
    }
    let x = weighted_total(weights, &samples);
    assert(2 * x <= 2 * (31 * 0xffff_fffe_0000_0001)) by (nonlinear_arith)
        requires
            x <= N * 0xffff_fffe_0000_0001,
            N <= 31,
    ;
    let bound = match checked_power(2 * x, N) {
        Some(b) => b,
        None => {
            return Err(CdfError::TooLarge);
        },
    };
    let den = match denominator(weights, scale) {
        Some(d) => d,
        None => {
            return Err(CdfError::TooLarge);
        },
    };
    let count = subset_count(N);
    let ghost w = weights@;
    let ghost top = power(x as int, N as nat);
    proof {
        lemma_power_of_product(2, x as int, N as nat);
        lemma_power_of_two(N as nat);
        lemma_power_nonnegative(x as int, N as nat);
        assert(count * top == bound);
    }
    let mut y: i128 = 0;
    let mut mask: u32 = 0;
    while mask < count
        invariant
            mask <= count,
            N <= MAX_VARIABLES,
            weights@ == w,
            w.len() == N,
            x >= 0,
            scale >= 1,
            top == power(x as int, N as nat),
            top >= 0,
            count * top <= i128::MAX,
            y == signed_sum(w, x as int, scale as int, mask as int, N as nat),
            -(mask * top) <= y <= mask * top,
        decreases count - mask,
    {
        let (z, odd) = subset_of(weights, mask);
        assert(0 <= scale * z <= 0xffff_ffff * (31 * 0xffff_ffff)) by (nonlinear_arith)
            requires
                0 <= scale <= 0xffff_ffff,
                0 <= z <= N * 0xffff_ffff,
                N <= 31,
        ;
        let shifted: i128 = x - (scale as i128) * z;
        let t: i128 = if shifted > 0 {
            shifted
        } else {
            0
        };
        proof {
            lemma_power_base_monotone(t as int, x as int, N as nat);
            assert((mask + 1) * top <= count * top) by (nonlinear_arith)
                requires
                    top >= 0,
                    count >= mask + 1,
            ;
            assert((mask + 1) * top == mask * top + top) by (nonlinear_arith);
        }
        let term = checked_power(t, N).unwrap();
        if odd {
            y = y - term;
        } else {
            y = y + term;
        }
        mask += 1;
    }
    proof {
        lemma_masks_cover_subsets(w, x as int, scale as int, N as nat);
        lemma_cdf_bounded(w, samples@, scale as int);
    }
    Ok(Ratio { num: y, den })
}

proof fn lemma_power_of_two(n: nat)
    ensures
        power(2, n) == pow2(n),
    decreases n,
{
    if n > 0 {
        lemma_power_of_two((n - 1) as nat);
        lemma_pow2_unfold(n);
    } else {
        lemma2_to64();
    }
}

} // verus!
