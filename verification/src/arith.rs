//! Powers and factorials of integers, with and without a machine limit.

use vstd::prelude::*;

verus! {

/// `b` to the power `e`.
pub open spec fn power(b: int, e: nat) -> int
    decreases e,
{
    if e == 0 {
        1
    } else {
        b * power(b, (e - 1) as nat)
    }
}

/// `max(0, x)` to the power `e`.
pub open spec fn clamped_power(x: int, e: nat) -> int {
    power(if x > 0 { x } else { 0 }, e)
}

/// The product `1 * 2 * .. * n`.
pub open spec fn spec_factorial(n: nat) -> int
    decreases n,
{
    if n == 0 {
        1
    } else {
        n * spec_factorial((n - 1) as nat)
    }
}

/// The powers with exponents 0, 1 and 2.
pub proof fn lemma_small_powers(x: int)
    ensures
        power(x, 0) == 1,
        power(x, 1) == x,
        power(x, 2) == x * x,
{
    reveal_with_fuel(power, 3);
    assert(x * 1 == x);
}

/// A power of a number that is not negative is not negative, and a power of
/// a positive number is positive.
pub proof fn lemma_power_nonnegative(b: int, e: nat)
    requires
        b >= 0,
    ensures
        power(b, e) >= 0,
        b >= 1 ==> power(b, e) >= 1,
    decreases e,
{
    if e > 0 {
        lemma_power_nonnegative(b, (e - 1) as nat);
        let p = power(b, (e - 1) as nat);
        assert(b * p >= 0 && (b >= 1 && p >= 1 ==> b * p >= 1)) by (nonlinear_arith)
            requires
                b >= 0,
                p >= 0,
        ;
    }
}

/// A power grows with its base.
pub proof fn lemma_power_base_monotone(a: int, b: int, e: nat)
    requires
        0 <= a <= b,
    ensures
        0 <= power(a, e) <= power(b, e),
    decreases e,
{
    if e > 0 {
        lemma_power_base_monotone(a, b, (e - 1) as nat);
        let p = power(a, (e - 1) as nat);
        let q = power(b, (e - 1) as nat);
        assert(0 <= a * p <= b * q) by (nonlinear_arith)
            requires
                0 <= a <= b,
                0 <= p <= q,
        ;
    }
}

/// A power of a base of at least 1 grows with its exponent.
pub proof fn lemma_power_exponent_monotone(b: int, e1: nat, e2: nat)
    requires
        b >= 1,
        e1 <= e2,
    ensures
        1 <= power(b, e1) <= power(b, e2),
    decreases e2,
{
    lemma_power_nonnegative(b, e1);
    if e1 < e2 {
        lemma_power_exponent_monotone(b, e1, (e2 - 1) as nat);
        let q = power(b, (e2 - 1) as nat);
        assert(q <= b * q) by (nonlinear_arith)
            requires
                b >= 1,
                q >= 1,
        ;
    }
}

/// The power of a product is the product of the powers.
pub proof fn lemma_power_of_product(a: int, b: int, e: nat)
    ensures
        power(a * b, e) == power(a, e) * power(b, e),
    decreases e,
{
    if e > 0 {
        lemma_power_of_product(a, b, (e - 1) as nat);
        let p = power(a, (e - 1) as nat);
        let q = power(b, (e - 1) as nat);
        assert((a * b) * (p * q) == (a * p) * (b * q)) by (nonlinear_arith);
    }
}

/// The factorial grows with its argument and is at least 1.
pub proof fn lemma_factorial_monotone(a: nat, b: nat)
    requires
        a <= b,
    ensures
        1 <= spec_factorial(a) <= spec_factorial(b),
    decreases b,
{
    if b == 0 {
    } else if a < b {
        lemma_factorial_monotone(a, (b - 1) as nat);
        let f = spec_factorial((b - 1) as nat);
        assert(f <= b * f) by (nonlinear_arith)
            requires
                b >= 1,
                f >= 1,
        ;
    } else {
        lemma_factorial_monotone((a - 1) as nat, (b - 1) as nat);
        let f = spec_factorial((b - 1) as nat);
        assert(1 <= b * f) by (nonlinear_arith)
            requires
                b >= 1,
                f >= 1,
        ;
    }
}

/// The greatest factorial that is an `i32`, and the one after it.
pub proof fn lemma_factorial_limit()
    ensures
        spec_factorial(12) == 479001600,
        spec_factorial(13) == 6227020800,
{
    assert(spec_factorial(1) == 1) by {
        reveal_with_fuel(spec_factorial, 2);
    }
    assert(spec_factorial(2) == 2);
    assert(spec_factorial(3) == 6);
    assert(spec_factorial(4) == 24);
    assert(spec_factorial(5) == 120);
    assert(spec_factorial(6) == 720);
    assert(spec_factorial(7) == 5040);
    assert(spec_factorial(8) == 40320);
    assert(spec_factorial(9) == 362880);
    assert(spec_factorial(10) == 3628800);
    assert(spec_factorial(11) == 39916800);
    assert(spec_factorial(12) == 479001600);
}

/// `base` to the power `exp`, or `None` where that exceeds an `i128`.
pub fn checked_power(base: i128, exp: usize) -> (p: Option<i128>)
    requires
        base >= 0,
    ensures
        p.is_some() == (power(base as int, exp as nat) <= i128::MAX),
        p matches Some(v) ==> v == power(base as int, exp as nat),
{
    let mut acc: i128 = 1;
    let mut k: usize = 0;
    while k < exp
        invariant
            base >= 0,
            k <= exp,
            acc == power(base as int, k as nat),
            acc >= 0,
        decreases exp - k,
    {
        proof {
            assert(acc * base == base * acc) by (nonlinear_arith);
            lemma_power_nonnegative(base as int, (k + 1) as nat);
        }
        match acc.checked_mul(base) {
            Some(next) => {
                acc = next;
            },
            None => {
                proof {
                    assert(power(base as int, (k + 1) as nat) > i128::MAX);
                    assert(base >= 1);
                    lemma_power_exponent_monotone(base as int, (k + 1) as nat, exp as nat);
                }
                return None;
            },
        }
        k += 1;
    }
    Some(acc)
}

/// The factorial of `n`, or `None` where it exceeds an `i32`, that is, for
/// `n` above 12.
pub fn factorial(n: u32) -> (f: Option<i32>)
    ensures
        f.is_some() == (spec_factorial(n as nat) <= i32::MAX),
        f.is_some() == (n <= 12),
        f matches Some(v) ==> v == spec_factorial(n as nat),
{
    proof {
        lemma_factorial_limit();
    }
    if n > 12 {
        proof {
            lemma_factorial_monotone(13, n as nat);
        }
        return None;
    }
    let mut acc: i32 = 1;
    let mut k: u32 = 0;
    while k < n
        invariant
            k <= n <= 12,
            acc == spec_factorial(k as nat),
            spec_factorial(12) == 479001600,
            1 <= acc <= 479001600,
        decreases n - k,
    {
        proof {
            lemma_factorial_monotone((k + 1) as nat, 12);
            assert(acc * (k + 1) == (k + 1) * acc) by (nonlinear_arith);
        }
        acc = acc * ((k + 1) as i32);
        k += 1;
    }
    proof {
        lemma_factorial_monotone(n as nat, 12);
    }
    Some(acc)
}

} // verus!
