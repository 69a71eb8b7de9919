//! What holds of the distribution of a weighted sum of uniform variables: it
//! lies between 0 and 1, is 0 where every sample is 0 and 1 where every
//! sample is 1, and does not fall; a single variable keeps its uniform
//! distribution, and two of equal weight have the median one half.
//!
//! A difference with step `c` is a sum of `c` differences with step 1, so the
//! alternating sum over `N` weights is a sum, over a box of that many
//! dimensions, of `N`-fold unit differences of the `N`-th clamped power, each
//! of which lies between 0 and the factorial of `N`.

use crate::arith::{
    clamped_power, lemma_factorial_monotone, lemma_power_of_product, lemma_small_powers, power,
    spec_factorial,
};
use crate::differences::{difference, lemma_plateau_bounds, lemma_rise, plateau, rise};
use crate::formula::{
    alternating_sum, cdf_denominator, cdf_numerator, weight_product, weighted_sum,
};
use vstd::prelude::*;

verus! {

/// The alternating sum over all subsets of the weights, as
/// [`alternating_sum`], of the `j`-fold unit difference of the `e`-th clamped
/// power in place of the power itself.
pub open spec fn alternating_difference(w: Seq<u32>, scale: int, j: nat, e: nat, x: int) -> int
    decreases w.len(),
{
    if w.len() == 0 {
        difference(j, e, x)
    } else {
        alternating_difference(w.drop_last(), scale, j, e, x) - alternating_difference(
            w.drop_last(),
            scale,
            j,
            e,
            x - scale * w.last(),
        )
    }
}

/// The product of `scale * w[k]` over the first `n` indices.
pub open spec fn step_product(w: Seq<u32>, scale: int, n: int) -> int
    decreases n,
{
    if n <= 0 {
        1
    } else {
        step_product(w, scale, n - 1) * (scale * w[n - 1])
    }
}

/// The sum of `scale * w[k]` over the first `n` indices.
pub open spec fn step_sum(w: Seq<u32>, scale: int, n: int) -> int
    decreases n,
{
    if n <= 0 {
        0
    } else {
        step_sum(w, scale, n - 1) + scale * w[n - 1]
    }
}

proof fn lemma_no_difference(w: Seq<u32>, scale: int, e: nat, x: int)
    ensures
        alternating_difference(w, scale, 0, e, x) == alternating_sum(w, x, scale, e),
    decreases w.len(),
{
    if w.len() > 0 {
        lemma_no_difference(w.drop_last(), scale, e, x);
        lemma_no_difference(w.drop_last(), scale, e, x - scale * w.last());
    }
}

/// A unit difference of the alternating sum is the alternating sum of the
/// next difference.
proof fn lemma_unit_step(w: Seq<u32>, scale: int, j: nat, e: nat, x: int)
    ensures
        alternating_difference(w, scale, j, e, x) - alternating_difference(w, scale, j, e, x - 1)
            == alternating_difference(w, scale, j + 1, e, x),
    decreases w.len(),
{
    if w.len() > 0 {
        let c = scale * w.last();
        lemma_unit_step(w.drop_last(), scale, j, e, x);
        lemma_unit_step(w.drop_last(), scale, j, e, x - c);
        assert(x - 1 - c == x - c - 1);
    }
}

proof fn lemma_step_product_nonnegative(w: Seq<u32>, scale: int, n: int)
    requires
        scale >= 0,
        0 <= n <= w.len(),
    ensures
        step_product(w, scale, n) >= 0,
        step_sum(w, scale, n) >= 0,
    decreases n,
{
    if n > 0 {
        lemma_step_product_nonnegative(w, scale, n - 1);
        let p = step_product(w, scale, n - 1);
        let a = w[n - 1] as int;
        assert(p * (scale * a) >= 0 && scale * a >= 0) by (nonlinear_arith)
            requires
                p >= 0,
                scale >= 0,
                a >= 0,
        ;
    }
}

/// The greatest value of the alternating sum over the weights `w` of an
/// `e`-fold difference in all.
spec fn ceiling(w: Seq<u32>, scale: int, e: nat) -> int {
    spec_factorial(e) * step_product(w, scale, w.len() as int)
}

proof fn lemma_ceiling(w: Seq<u32>, scale: int, e: nat)
    requires
        scale >= 0,
    ensures
        ceiling(w, scale, e) >= 0,
        w.len() >= 1 ==> ceiling(w, scale, e) == (scale * w.last()) * ceiling(
            w.drop_last(),
            scale,
            e,
        ),
{
    let f = spec_factorial(e);
    lemma_factorial_monotone(0, e);
    lemma_step_product_nonnegative(w, scale, w.len() as int);
    let p = step_product(w, scale, w.len() as int);
    assert(f * p >= 0) by (nonlinear_arith)
        requires
            f >= 1,
            p >= 0,
    ;
    if w.len() >= 1 {
        let v = w.drop_last();
        let c = scale * w.last();
        lemma_same_steps(w, scale, v.len() as int);
        let q = step_product(v, scale, v.len() as int);
        assert(p == q * c);
        assert(f * (q * c) == c * (f * q)) by (nonlinear_arith);
    }
}

proof fn lemma_same_steps(w: Seq<u32>, scale: int, n: int)
    requires
        w.len() >= 1,
        0 <= n <= w.len() - 1,
    ensures
        step_product(w, scale, n) == step_product(w.drop_last(), scale, n),
        step_sum(w, scale, n) == step_sum(w.drop_last(), scale, n),
    decreases n,
{
    if n > 0 {
        lemma_same_steps(w, scale, n - 1);
    }
}

/// The alternating sum of differences, `N`-fold in all, lies between 0 and
/// the factorial of `N` times the product of the steps.
proof fn lemma_box_bounds(w: Seq<u32>, scale: int, j: nat, e: nat, x: int)
    requires
        scale >= 0,
        j + w.len() == e,
    ensures
        0 <= alternating_difference(w, scale, j, e, x) <= ceiling(w, scale, e),
    decreases w.len(), 0int,
{
    if w.len() == 0 {
        lemma_plateau_bounds(e, x);
        assert(plateau(e, x) == difference(j, e, x));
        assert(spec_factorial(e) * 1 == spec_factorial(e));
    } else {
        let a = w.last() as int;
        let c = scale * a;
        assert(c >= 0) by (nonlinear_arith)
            requires
                scale >= 0,
                a >= 0,
                c == scale * a,
        ;
        lemma_span_bounds(w.drop_last(), scale, j, e, x, c);
        lemma_ceiling(w, scale, e);
    }
}

/// Over `c` unit steps the alternating sum rises by at most `c` times the
/// bound of a single step, and does not fall.
proof fn lemma_span_bounds(w: Seq<u32>, scale: int, j: nat, e: nat, x: int, c: int)
    requires
        scale >= 0,
        c >= 0,
        j + 1 + w.len() == e,
    ensures
        0 <= alternating_difference(w, scale, j, e, x) - alternating_difference(
            w,
            scale,
            j,
            e,
            x - c,
        ) <= c * ceiling(w, scale, e),
    decreases w.len(), c + 1,
{
    let b = ceiling(w, scale, e);
    if c == 0 {
        assert(0 * b == 0);
    } else {
        lemma_span_bounds(w, scale, j, e, x - 1, c - 1);
        lemma_unit_step(w, scale, j, e, x);
        lemma_box_bounds(w, scale, j + 1, e, x);
        assert(x - 1 - (c - 1) == x - c);
        assert(c * b == (c - 1) * b + b) by (nonlinear_arith);
    }
}

/// From the sum of the steps plus the number of unit differences on, the
/// alternating sum of differences, `N`-fold in all, is the factorial of `N`
/// times the product of the steps.
proof fn lemma_box_top(w: Seq<u32>, scale: int, j: nat, e: nat, x: int)
    requires
        scale >= 0,
        j + w.len() == e,
        x >= j + step_sum(w, scale, w.len() as int),
    ensures
        alternating_difference(w, scale, j, e, x) == ceiling(w, scale, e),
    decreases w.len(), 0int,
{
    if w.len() == 0 {
        lemma_plateau_bounds(e, x);
        assert(plateau(e, x) == difference(j, e, x));
        assert(spec_factorial(e) * 1 == spec_factorial(e));
    } else {
        let a = w.last() as int;
        let c = scale * a;
        assert(c >= 0) by (nonlinear_arith)
            requires
                scale >= 0,
                a >= 0,
                c == scale * a,
        ;
        lemma_same_steps(w, scale, w.len() - 1);
        lemma_span_top(w.drop_last(), scale, j, e, x, c);
        lemma_ceiling(w, scale, e);
    }
}

proof fn lemma_span_top(w: Seq<u32>, scale: int, j: nat, e: nat, x: int, c: int)
    requires
        scale >= 0,
        c >= 0,
        j + 1 + w.len() == e,
        x - c >= j + step_sum(w, scale, w.len() as int),
    ensures
        alternating_difference(w, scale, j, e, x) - alternating_difference(w, scale, j, e, x - c)
            == c * ceiling(w, scale, e),
    decreases w.len(), c + 1,
{
    let b = ceiling(w, scale, e);
    if c == 0 {
        assert(0 * b == 0);
    } else {
        lemma_span_top(w, scale, j, e, x - 1, c - 1);
        lemma_unit_step(w, scale, j, e, x);
        lemma_box_top(w, scale, j + 1, e, x);
        assert(x - 1 - (c - 1) == x - c);
        assert(c * b == (c - 1) * b + b) by (nonlinear_arith);
    }
}

/// The alternating sum of differences, one more in all than the exponent,
/// is not negative.
proof fn lemma_box_rises(w: Seq<u32>, scale: int, j: nat, e: nat, x: int)
    requires
        scale >= 0,
        e >= 1,
        j + w.len() == e + 1,
    ensures
        0 <= alternating_difference(w, scale, j, e, x),
    decreases w.len(), 0int,
{
    if w.len() == 0 {
        lemma_rise(e, x);
        assert(rise(e, x) == difference(j, e, x));
    } else {
        let a = w.last() as int;
        let c = scale * a;
        assert(c >= 0) by (nonlinear_arith)
            requires
                scale >= 0,
                a >= 0,
                c == scale * a,
        ;
        lemma_span_rises(w.drop_last(), scale, j, e, x, c);
    }
}

proof fn lemma_span_rises(w: Seq<u32>, scale: int, j: nat, e: nat, x: int, c: int)
    requires
        scale >= 0,
        c >= 0,
        e >= 1,
        j + w.len() == e,
    ensures
        alternating_difference(w, scale, j, e, x - c) <= alternating_difference(
            w,
            scale,
            j,
            e,
            x,
        ),
    decreases w.len(), c + 1,
{
    if c > 0 {
        lemma_span_rises(w, scale, j, e, x - 1, c - 1);
        lemma_unit_step(w, scale, j, e, x);
        lemma_box_rises(w, scale, j + 1, e, x);
        assert(x - 1 - (c - 1) == x - c);
    }
}

proof fn lemma_weighted_sum_monotone(w: Seq<u32>, s1: Seq<u32>, s2: Seq<u32>, n: int)
    requires
        0 <= n <= s1.len(),
        s1.len() == s2.len(),
        forall|k: int| 0 <= k < s1.len() ==> s1[k] <= s2[k],
    ensures
        weighted_sum(w, s1, n) <= weighted_sum(w, s2, n),
    decreases n,
{
    if n > 0 {
        lemma_weighted_sum_monotone(w, s1, s2, n - 1);
        let a = w[n - 1] as int;
        let u = s1[n - 1] as int;
        let v = s2[n - 1] as int;
        assert(a * u <= a * v) by (nonlinear_arith)
            requires
                a >= 0,
                u <= v,
        ;
    }
}

proof fn lemma_step_product_splits(w: Seq<u32>, scale: int, n: int)
    requires
        0 <= n <= w.len(),
    ensures
        step_product(w, scale, n) == power(scale, n as nat) * weight_product(w, n),
    decreases n,
{
    if n > 0 {
        lemma_step_product_splits(w, scale, n - 1);
        let p = power(scale, (n - 1) as nat);
        let q = weight_product(w, n - 1);
        let a = w[n - 1] as int;
        assert((p * q) * (scale * a) == (scale * p) * (q * a)) by (nonlinear_arith);
    }
}

proof fn lemma_ceiling_is_denominator(w: Seq<u32>, scale: int)
    ensures
        ceiling(w, scale, w.len()) == cdf_denominator(w, scale),
{
    lemma_step_product_splits(w, scale, w.len() as int);
    let p = power(scale, w.len());
    let q = weight_product(w, w.len() as int);
    let f = spec_factorial(w.len());
    assert(f * (p * q) == p * q * f) by (nonlinear_arith);
}

proof fn lemma_full_weighted_sum(w: Seq<u32>, s: Seq<u32>, scale: int, n: int)
    requires
        0 <= n <= s.len(),
        forall|k: int| 0 <= k < s.len() ==> s[k] == scale,
    ensures
        weighted_sum(w, s, n) == step_sum(w, scale, n),
    decreases n,
{
    if n > 0 {
        lemma_full_weighted_sum(w, s, scale, n - 1);
        let a = w[n - 1] as int;
        assert(a * scale == scale * a) by (nonlinear_arith);
    }
}

/// The result lies in `[0, 1]`: for any weights and samples the numerator is
/// not negative and does not exceed the denominator.
pub proof fn lemma_cdf_bounded(w: Seq<u32>, s: Seq<u32>, scale: int)
    requires
        scale >= 0,
    ensures
        0 <= cdf_numerator(w, s, scale) <= cdf_denominator(w, scale),
{
    let x = weighted_sum(w, s, w.len() as int);
    lemma_no_difference(w, scale, w.len(), x);
    lemma_box_bounds(w, scale, 0, w.len(), x);
    lemma_ceiling_is_denominator(w, scale);
}

/// The distribution does not fall: the alternating sum at a lesser argument
/// is at most that at a greater one.
pub proof fn lemma_alternating_sum_monotone(w: Seq<u32>, scale: int, x1: int, x2: int)
    requires
        scale >= 0,
        x1 <= x2,
    ensures
        alternating_sum(w, x1, scale, w.len()) <= alternating_sum(w, x2, scale, w.len()),
{
    lemma_no_difference(w, scale, w.len(), x1);
    lemma_no_difference(w, scale, w.len(), x2);
    if w.len() >= 1 {
        lemma_span_rises(w, scale, 0, w.len(), x2, x2 - x1);
    }
}

/// The result does not fall where no sample falls.
pub proof fn lemma_cdf_monotone(w: Seq<u32>, s1: Seq<u32>, s2: Seq<u32>, scale: int)
    requires
        scale >= 0,
        w.len() == s1.len(),
        s1.len() == s2.len(),
        forall|k: int| 0 <= k < s1.len() ==> s1[k] <= s2[k],
    ensures
        cdf_numerator(w, s1, scale) <= cdf_numerator(w, s2, scale),
{
    lemma_weighted_sum_monotone(w, s1, s2, w.len() as int);
    lemma_alternating_sum_monotone(
        w,
        scale,
        weighted_sum(w, s1, w.len() as int),
        weighted_sum(w, s2, w.len() as int),
    );
}

/// At the upper end the distribution is 1: where every sample is 1, that is,
/// `scale`, the numerator is the denominator.
pub proof fn lemma_full_samples(w: Seq<u32>, s: Seq<u32>, scale: int)
    requires
        scale >= 0,
        w.len() == s.len(),
        forall|k: int| 0 <= k < s.len() ==> s[k] == scale,
    ensures
        cdf_numerator(w, s, scale) == cdf_denominator(w, scale),
{
    let x = weighted_sum(w, s, w.len() as int);
    lemma_full_weighted_sum(w, s, scale, w.len() as int);
    lemma_no_difference(w, scale, w.len(), x);
    lemma_box_top(w, scale, 0, w.len(), x);
    lemma_ceiling_is_denominator(w, scale);
}

proof fn lemma_weighted_sum_of_zeros(w: Seq<u32>, s: Seq<u32>, n: int)
    requires
        0 <= n <= s.len(),
        forall|k: int| 0 <= k < s.len() ==> s[k] == 0,
    ensures
        weighted_sum(w, s, n) == 0,
    decreases n,
{
    if n > 0 {
        lemma_weighted_sum_of_zeros(w, s, n - 1);
        assert(w[n - 1] * 0 == 0);
    }
}

proof fn lemma_alternating_sum_below_zero(w: Seq<u32>, x: int, scale: int, e: nat)
    requires
        x <= 0,
        scale >= 0,
        e >= 1,
    ensures
        alternating_sum(w, x, scale, e) == 0,
    decreases w.len(),
{
    if w.len() == 0 {
        assert(power(0, e) == 0);
    } else {
        let a = w.last() as int;
        assert(scale * a >= 0) by (nonlinear_arith)
            requires
                scale >= 0,
                a >= 0,
        ;
        lemma_alternating_sum_below_zero(w.drop_last(), x, scale, e);
        lemma_alternating_sum_below_zero(w.drop_last(), x - scale * a, scale, e);
    }
}

/// At the lower end the distribution is 0: where every sample is 0, and
/// there is a variable at all, the numerator is 0.
pub proof fn lemma_zero_samples(w: Seq<u32>, s: Seq<u32>, scale: int)
    requires
        w.len() == s.len(),
        w.len() >= 1,
        scale >= 0,
        forall|k: int| 0 <= k < s.len() ==> s[k] == 0,
    ensures
        cdf_numerator(w, s, scale) == 0,
{
    lemma_weighted_sum_of_zeros(w, s, w.len() as int);
    lemma_alternating_sum_below_zero(w, 0, scale, w.len());
}

/// The numerator and denominator for a single variable of weight `a` and
/// value `s / scale`.
proof fn lemma_single_variable_terms(a: u32, s: u32, scale: int)
    requires
        scale >= 1,
        s <= scale,
    ensures
        cdf_numerator(seq![a], seq![s], scale) == a * s,
        cdf_denominator(seq![a], scale) == scale * a,
{
    let w = seq![a];
    let smp = seq![s];
    reveal_with_fuel(weighted_sum, 2);
    reveal_with_fuel(weight_product, 2);
    reveal_with_fuel(spec_factorial, 2);
    reveal_with_fuel(alternating_sum, 2);
    let x = weighted_sum(w, smp, 1);
    assert(x == a * s);
    assert(w.drop_last().len() == 0);
    assert(w.last() == a);
    lemma_small_powers(x);
    lemma_small_powers(0);
    lemma_small_powers(scale);
    assert(a * s >= 0 && a * s - scale * a <= 0) by (nonlinear_arith)
        requires
            0 <= s <= scale,
            a >= 0,
    ;
    assert(clamped_power(x, 1) == x);
    assert(clamped_power(x - scale * a, 1) == 0);
    assert(scale * a * 1 == scale * a) by (nonlinear_arith);
}

/// A single variable has the distribution of a uniform one: for one weight,
/// whatever it is, the result is the sample itself, `s / scale`.
pub proof fn lemma_single_variable_is_identity(a: u32, s: u32, scale: int)
    requires
        a >= 1,
        scale >= 1,
        s <= scale,
    ensures
        cdf_numerator(seq![a], seq![s], scale) * scale == s * cdf_denominator(seq![a], scale),
        cdf_denominator(seq![a], scale) > 0,
{
    lemma_single_variable_terms(a, s, scale);
    assert((a * s) * scale == s * (scale * a)) by (nonlinear_arith);
    assert(scale * a > 0) by (nonlinear_arith)
        requires
            a >= 1,
            scale >= 1,
    ;
}

/// The numerator and denominator for two variables, in terms of the two
/// scaled weights `p = scale * a`, `q = scale * b` and the weighted sum `x`.
proof fn lemma_two_variable_terms(a: u32, b: u32, s1: u32, s2: u32, scale: int)
    requires
        scale >= 1,
        s1 <= scale,
        s2 <= scale,
    ensures
        ({
            let x = a * s1 + b * s2;
            let p = scale * a;
            let q = scale * b;
            &&& cdf_numerator(seq![a, b], seq![s1, s2], scale) == clamped_power(x, 2)
                - clamped_power(x - p, 2) - clamped_power(x - q, 2) + clamped_power(x - p - q, 2)
            &&& cdf_denominator(seq![a, b], scale) == 2 * (p * q)
            &&& 0 <= x <= p + q
        }),
{
    let w = seq![a, b];
    let smp = seq![s1, s2];
    reveal_with_fuel(weighted_sum, 3);
    reveal_with_fuel(weight_product, 3);
    reveal_with_fuel(spec_factorial, 3);
    let x = weighted_sum(w, smp, 2);
    let p = scale * a;
    let q = scale * b;
    assert(x == a * s1 + b * s2);
    let w1 = w.drop_last();
    assert(w1 =~= seq![a]);
    assert(w.last() == b);
    assert(w1.drop_last().len() == 0);
    assert(w1.last() == a);
    assert(alternating_sum(w1, x, scale, 2) == clamped_power(x, 2) - clamped_power(x - p, 2)) by {
        reveal_with_fuel(alternating_sum, 2);
    }
    assert(alternating_sum(w1, x - q, scale, 2) == clamped_power(x - q, 2) - clamped_power(
        x - q - p,
        2,
    )) by {
        reveal_with_fuel(alternating_sum, 2);
    }
    assert(alternating_sum(w, x, scale, 2) == alternating_sum(w1, x, scale, 2) - alternating_sum(
        w1,
        x - q,
        scale,
        2,
    ));
    lemma_small_powers(scale);
    assert((scale * scale) * (1 * a * b) * 2 == 2 * ((scale * a) * (scale * b)))
        by (nonlinear_arith);
    assert(weight_product(w, 2) == 1 * a * b);
    assert(spec_factorial(2) == 2);
    assert(0 <= a * s1 <= scale * a && 0 <= b * s2 <= scale * b) by (nonlinear_arith)
        requires
            0 <= s1 <= scale,
            0 <= s2 <= scale,
            a >= 0,
            b >= 0,
    ;
}

/// Two variables of equal weight have a symmetric distribution: where the
/// two samples add up to 1, the result is one half.
pub proof fn lemma_equal_weights_median(a: u32, s1: u32, s2: u32, scale: int)
    requires
        a >= 1,
        scale >= 1,
        s1 + s2 == scale,
    ensures
        2 * cdf_numerator(seq![a, a], seq![s1, s2], scale) == cdf_denominator(seq![a, a], scale),
        cdf_denominator(seq![a, a], scale) > 0,
{
    lemma_two_variable_terms(a, a, s1, s2, scale);
    let x = a * s1 + a * s2;
    let p = scale * a;
    assert(x == p) by (nonlinear_arith)
        requires
            x == a * s1 + a * s2,
            p == scale * a,
            s1 + s2 == scale,
    ;
    lemma_small_powers(x);
    lemma_small_powers(0);
    assert(p > 0 && p * p > 0) by (nonlinear_arith)
        requires
            p == scale * a,
            a >= 1,
            scale >= 1,
    ;
}

/// Where every step `scale * w[k]` and the argument are multiplied by `c`,
/// the alternating sum is multiplied by `c` to the power of the exponent.
proof fn lemma_scaled_alternating_sum(
    w: Seq<u32>,
    w2: Seq<u32>,
    scale: int,
    scale2: int,
    c: int,
    x: int,
    e: nat,
)
    requires
        c >= 1,
        w.len() == w2.len(),
        forall|k: int| 0 <= k < w.len() ==> scale2 * w2[k] == c * (scale * w[k]),
    ensures
        alternating_sum(w2, c * x, scale2, e) == power(c, e) * alternating_sum(w, x, scale, e),
    decreases w.len(),
{
    let p = power(c, e);
    if w.len() == 0 {
        let y = if x > 0 {
            x
        } else {
            0
        };
        assert(c * x > 0 <==> x > 0) by (nonlinear_arith)
            requires
                c >= 1,
        ;
        assert(c * 0 == 0);
        lemma_power_of_product(c, y, e);
    } else {
        let v = w.drop_last();
        let v2 = w2.drop_last();
        let t = scale * w.last();
        assert(scale2 * w2.last() == c * t);
        lemma_scaled_alternating_sum(v, v2, scale, scale2, c, x, e);
        lemma_scaled_alternating_sum(v, v2, scale, scale2, c, x - t, e);
        assert(c * (x - t) == c * x - c * t) by (nonlinear_arith);
        let a = alternating_sum(v, x, scale, e);
        let b = alternating_sum(v, x - t, scale, e);
        assert(p * a - p * b == p * (a - b)) by (nonlinear_arith);
    }
}

proof fn lemma_scaled_weights(w: Seq<u32>, w2: Seq<u32>, s: Seq<u32>, c: int, n: int)
    requires
        0 <= n <= w.len(),
        w.len() == w2.len(),
        forall|k: int| 0 <= k < w.len() ==> w2[k] == c * w[k],
    ensures
        weighted_sum(w2, s, n) == c * weighted_sum(w, s, n),
        weight_product(w2, n) == power(c, n as nat) * weight_product(w, n),
    decreases n,
{
    if n > 0 {
        lemma_scaled_weights(w, w2, s, c, n - 1);
        let a = w[n - 1] as int;
        let u = s[n - 1] as int;
        let x = weighted_sum(w, s, n - 1);
        let q = weight_product(w, n - 1);
        let p = power(c, (n - 1) as nat);
        assert(c * x + (c * a) * u == c * (x + a * u)) by (nonlinear_arith);
        assert((p * q) * (c * a) == (c * p) * (q * a)) by (nonlinear_arith);
    }
}

proof fn lemma_scaled_samples(w: Seq<u32>, s: Seq<u32>, s2: Seq<u32>, c: int, n: int)
    requires
        0 <= n <= s.len(),
        s.len() == s2.len(),
        forall|k: int| 0 <= k < s.len() ==> s2[k] == c * s[k],
    ensures
        weighted_sum(w, s2, n) == c * weighted_sum(w, s, n),
    decreases n,
{
    if n > 0 {
        lemma_scaled_samples(w, s, s2, c, n - 1);
        let a = w[n - 1] as int;
        let u = s[n - 1] as int;
        let x = weighted_sum(w, s, n - 1);
        assert(c * x + a * (c * u) == c * (x + a * u)) by (nonlinear_arith);
    }
}

/// The result does not depend on the unit of the weights: where every weight
/// is multiplied by the same `c`, numerator and denominator are multiplied by
/// the same factor, so that the fraction stays the same.
pub proof fn lemma_unit_of_weights(w: Seq<u32>, w2: Seq<u32>, s: Seq<u32>, scale: int, c: int)
    requires
        c >= 1,
        w.len() == w2.len(),
        forall|k: int| 0 <= k < w.len() ==> w2[k] == c * w[k],
    ensures
        cdf_numerator(w2, s, scale) * cdf_denominator(w, scale) == cdf_numerator(w, s, scale)
            * cdf_denominator(w2, scale),
{
    let n = w.len() as int;
    let p = power(c, w.len());
    let x = weighted_sum(w, s, n);
    lemma_scaled_weights(w, w2, s, c, n);
    assert forall|k: int| 0 <= k < w.len() implies scale * w2[k] == c * (scale * w[k]) by {
        let a = w[k] as int;
        assert(scale * (c * a) == c * (scale * a)) by (nonlinear_arith);
    }
    lemma_scaled_alternating_sum(w, w2, scale, scale, c, x, w.len());
    let num = cdf_numerator(w, s, scale);
    let ps = power(scale, w.len());
    let q = weight_product(w, n);
    let f = spec_factorial(w.len());
    assert((p * num) * (ps * q * f) == num * (ps * (p * q) * f)) by (nonlinear_arith);
}

/// The result does not depend on the resolution of the samples: where every
/// sample and `scale` are multiplied by the same `c`, numerator and
/// denominator are multiplied by the same factor.
pub proof fn lemma_resolution_of_samples(
    w: Seq<u32>,
    s: Seq<u32>,
    s2: Seq<u32>,
    scale: int,
    c: int,
)
    requires
        c >= 1,
        w.len() == s.len(),
        s.len() == s2.len(),
        forall|k: int| 0 <= k < s.len() ==> s2[k] == c * s[k],
    ensures
        cdf_numerator(w, s2, c * scale) * cdf_denominator(w, scale) == cdf_numerator(w, s, scale)
            * cdf_denominator(w, c * scale),
{
    let n = w.len() as int;
    let p = power(c, w.len());
    let x = weighted_sum(w, s, n);
    lemma_scaled_samples(w, s, s2, c, n);
    assert forall|k: int| 0 <= k < w.len() implies (c * scale) * w[k] == c * (scale * w[k]) by {
        let a = w[k] as int;
        assert((c * scale) * a == c * (scale * a)) by (nonlinear_arith);
    }
    lemma_scaled_alternating_sum(w, w, scale, c * scale, c, x, w.len());
    lemma_power_of_product(c, scale, w.len());
    let num = cdf_numerator(w, s, scale);
    let ps = power(scale, w.len());
    let q = weight_product(w, n);
    let f = spec_factorial(w.len());
    assert((p * num) * (ps * q * f) == num * ((p * ps) * q * f)) by (nonlinear_arith);
}

} // verus!
