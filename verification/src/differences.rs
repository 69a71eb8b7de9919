//! Repeated differences of the clamped powers `y -> max(0, y)^e`.
//!
//! The `e`-fold difference of the `e`-th clamped power rises from 0 to the
//! factorial of `e`; the distribution of a sum of `e` uniform variables with
//! whole weights is a sum of such differences, which is what bounds it.

use crate::arith::{clamped_power, lemma_factorial_monotone, spec_factorial};
use vstd::prelude::*;

verus! {

/// The `j`-fold difference, with step 1, of `y -> max(0, y)^e`, at `y`.
pub open spec fn difference(j: nat, e: nat, y: int) -> int
    decreases j,
{
    if j == 0 {
        clamped_power(y, e)
    } else {
        difference((j - 1) as nat, e, y) - difference((j - 1) as nat, e, y - 1)
    }
}

/// Up to 0 every difference of a clamped power with a positive exponent is 0.
pub proof fn lemma_difference_vanishes(j: nat, e: nat, y: int)
    requires
        e >= 1,
        y <= 0,
    ensures
        difference(j, e, y) == 0,
    decreases j,
{
    if j > 0 {
        lemma_difference_vanishes((j - 1) as nat, e, y);
        lemma_difference_vanishes((j - 1) as nat, e, y - 1);
    }
}

proof fn lemma_clamped_power_step(y: int, e: nat)
    requires
        e >= 2,
    ensures
        clamped_power(y, e) == y * clamped_power(y, (e - 1) as nat),
{
    if y <= 0 {
        assert(clamped_power(y, (e - 1) as nat) == 0);
        assert(y * 0 == 0);
    }
}

/// What [`lemma_product_rule`] adds to `y` times the difference of the next
/// lower power.
pub open spec fn carried(j: nat, e: nat, y: int) -> int {
    if j == 0 {
        0
    } else {
        j * difference((j - 1) as nat, (e - 1) as nat, y - 1)
    }
}

/// The rule for the difference of a product, applied to `max(0, y)^e = y *
/// max(0, y)^(e - 1)`.
pub proof fn lemma_product_rule(j: nat, e: nat, y: int)
    requires
        e >= 2,
    ensures
        difference(j, e, y) == y * difference(j, (e - 1) as nat, y) + carried(j, e, y),
    decreases j,
{
    let e1 = (e - 1) as nat;
    if j == 0 {
        lemma_clamped_power_step(y, e);
    } else {
        let i = (j - 1) as nat;
        lemma_product_rule(i, e, y);
        lemma_product_rule(i, e, y - 1);
        let a = difference(i, e1, y);
        let b = difference(i, e1, y - 1);
        if i == 0 {
            assert(y * a - (y - 1) * b == y * (a - b) + 1 * b) by (nonlinear_arith);
        } else {
            let h = (i - 1) as nat;
            let c = difference(h, e1, y - 1);
            let d = difference(h, e1, y - 2);
            assert(b == c - d);
            assert((y * a + i * c) - ((y - 1) * b + i * d) == y * (a - b) + (i + 1) * b)
                by (nonlinear_arith)
                requires
                    b == c - d,
            ;
        }
    }
}

/// The `(k + 1)`-fold difference of the `k`-th clamped power: how much the
/// `k`-fold difference rises at `y`.
pub open spec fn rise(k: nat, y: int) -> int {
    difference(k + 1, k, y)
}

/// The `k`-fold difference of the `k`-th clamped power.
pub open spec fn plateau(k: nat, y: int) -> int {
    difference(k, k, y)
}

proof fn lemma_rise_step(k: nat, y: int)
    requires
        k >= 2,
    ensures
        rise(k, y) == y * rise((k - 1) as nat, y) + (k + 1 - y) * rise((k - 1) as nat, y - 1),
{
    let k1 = (k - 1) as nat;
    lemma_product_rule(k + 1, k, y);
    let r = rise(k1, y);
    let q = rise(k1, y - 1);
    assert(difference(k + 1, k1, y) == r - q);
    assert(carried(k + 1, k, y) == (k + 1) * q);
    assert(y * (r - q) + (k + 1) * q == y * r + (k + 1 - y) * q) by (nonlinear_arith);
}

proof fn lemma_first_rise(y: int)
    ensures
        rise(1, y) == (if y == 1 {
            1int
        } else {
            0int
        }),
{
    reveal_with_fuel(difference, 3);
    crate::arith::lemma_small_powers(y);
    crate::arith::lemma_small_powers(y - 1);
    crate::arith::lemma_small_powers(y - 2);
    crate::arith::lemma_small_powers(0);
}

/// The rise is never negative, and it is 0 up to 0 and from `k + 1` on.
pub proof fn lemma_rise(k: nat, y: int)
    requires
        k >= 1,
    ensures
        rise(k, y) >= 0,
        y <= 0 || y >= k + 1 ==> rise(k, y) == 0,
    decreases k,
{
    if k == 1 {
        lemma_first_rise(y);
    } else {
        let k1 = (k - 1) as nat;
        lemma_rise_step(k, y);
        lemma_rise(k1, y);
        lemma_rise(k1, y - 1);
        let r = rise(k1, y);
        let q = rise(k1, y - 1);
        if y <= 0 || y >= k + 1 {
            assert(r == 0 && q == 0);
            assert(y * r + (k + 1 - y) * q == 0) by (nonlinear_arith)
                requires
                    r == 0,
                    q == 0,
            ;
        } else {
            if y == k {
                assert(r == 0);
            }
            assert(y * r + (k + 1 - y) * q >= 0) by (nonlinear_arith)
                requires
                    y >= 1,
                    r >= 0,
                    q >= 0,
                    k + 1 - y >= 1,
            ;
        }
    }
}

/// The `k`-fold difference of the `k`-th clamped power does not fall.
pub proof fn lemma_plateau_monotone(k: nat, y1: int, y2: int)
    requires
        k >= 1,
        y1 <= y2,
    ensures
        plateau(k, y1) <= plateau(k, y2),
    decreases y2 - y1,
{
    if y1 < y2 {
        lemma_plateau_monotone(k, y1, y2 - 1);
        lemma_rise(k, y2);
        assert(rise(k, y2) == plateau(k, y2) - plateau(k, y2 - 1));
    }
}

/// From `k` on the `k`-fold difference of the `k`-th clamped power is the
/// factorial of `k`.
pub proof fn lemma_plateau_top(k: nat, y: int)
    requires
        k >= 1,
        y >= k,
    ensures
        plateau(k, y) == spec_factorial(k),
    decreases k,
{
    if k == 1 {
        reveal_with_fuel(difference, 2);
        reveal_with_fuel(spec_factorial, 2);
        crate::arith::lemma_small_powers(y);
        crate::arith::lemma_small_powers(y - 1);
        crate::arith::lemma_small_powers(0);
    } else {
        let k1 = (k - 1) as nat;
        lemma_product_rule(k, k, y);
        lemma_rise(k1, y);
        lemma_plateau_top(k1, y - 1);
        let r = rise(k1, y);
        assert(difference(k, k1, y) == r);
        assert(y * r == 0) by (nonlinear_arith)
            requires
                r == 0,
        ;
        assert(carried(k, k, y) == k * plateau(k1, y - 1));
    }
}

/// The `k`-fold difference of the `k`-th clamped power lies between 0 and
/// the factorial of `k`; it is 0 up to 0 and the factorial from `k` on.
pub proof fn lemma_plateau_bounds(k: nat, y: int)
    ensures
        0 <= plateau(k, y) <= spec_factorial(k),
        k >= 1 && y <= 0 ==> plateau(k, y) == 0,
        y >= k ==> plateau(k, y) == spec_factorial(k),
{
    if k == 0 {
        crate::arith::lemma_small_powers(y);
        crate::arith::lemma_small_powers(0);
    } else {
        lemma_factorial_monotone(0, k);
        if y <= 0 {
            lemma_difference_vanishes(k, k, y);
        } else if y >= k {
            lemma_plateau_top(k, y);
        } else {
            lemma_difference_vanishes(k, k, 0);
            lemma_plateau_top(k, k as int);
            lemma_plateau_monotone(k, 0, y);
            lemma_plateau_monotone(k, y, k as int);
        }
    }
}

} // verus!
