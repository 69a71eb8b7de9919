//! Subsets of the indices `0 .. n`, written as masks: index `k` belongs to
//! the subset `mask` where binary digit `k` of `mask` is 1. The masks below
//! `2^n` are the subsets of the first `n` indices, each once.

use vstd::arithmetic::div_mod::{
    lemma_basic_div, lemma_div_denominator, lemma_fundamental_div_mod,
    lemma_fundamental_div_mod_converse, lemma_mod_pos_bound,
};
use vstd::arithmetic::power2::{
    lemma2_to64, lemma_pow2_adds, lemma_pow2_pos, lemma_pow2_strictly_increases,
    lemma_pow2_unfold, pow2,
};
use vstd::bits::lemma_u32_shr_is_div;
use vstd::prelude::*;

verus! {

/// Greatest number of indices: the masks are `u32`, and their number is one
/// too.
pub const MAX_VARIABLES: usize = 31;

/// Whether index `k` belongs to the subset `mask`.
pub open spec fn in_subset(mask: int, k: nat) -> bool {
    (mask / (pow2(k) as int)) % 2 == 1
}

/// The sum of the weights, among the first `n`, whose index belongs to `mask`.
pub open spec fn subset_weight(w: Seq<u32>, mask: int, n: int) -> int
    decreases n,
{
    if n <= 0 {
        0
    } else if in_subset(mask, (n - 1) as nat) {
        subset_weight(w, mask, n - 1) + w[n - 1]
    } else {
        subset_weight(w, mask, n - 1)
    }
}

/// How many of the first `n` indices belong to `mask`.
pub open spec fn subset_size(mask: int, n: int) -> int
    decreases n,
{
    if n <= 0 {
        0
    } else if in_subset(mask, (n - 1) as nat) {
        subset_size(mask, n - 1) + 1
    } else {
        subset_size(mask, n - 1)
    }
}

/// Whether index `k` belongs to the subset `mask`.
pub fn subset_contains(mask: u32, k: u32) -> (inside: bool)
    requires
        k < 32,
    ensures
        inside == in_subset(mask as int, k as nat),
{
    proof {
        lemma_u32_shr_is_div(mask, k);
    }
    (mask >> k) % 2 == 1
}

/// Whether an odd number of the first `n` indices belongs to `mask`.
pub fn subset_is_odd(mask: u32, n: u32) -> (odd: bool)
    requires
        n <= 32,
    ensures
        odd == (subset_size(mask as int, n as int) % 2 == 1),
{
    let mut odd = false;
    let mut k: u32 = 0;
    while k < n
        invariant
            k <= n <= 32,
            odd == (subset_size(mask as int, k as int) % 2 == 1),
        decreases n - k,
    {
        if subset_contains(mask, k) {
            odd = !odd;
        }
        k += 1;
    }
    odd
}

/// The number of subsets of `n` indices.
pub fn subset_count(n: usize) -> (count: u32)
    requires
        n <= MAX_VARIABLES,
    ensures
        count == pow2(n as nat),
{
    let mut count: u32 = 1;
    let mut k: usize = 0;
    proof {
        lemma2_to64();
    }
    while k < n
        invariant
            k <= n <= MAX_VARIABLES,
            count == pow2(k as nat),
            pow2(31) == 0x8000_0000,
        decreases n - k,
    {
        proof {
            lemma_pow2_unfold((k + 1) as nat);
            if k + 1 < 31 {
                lemma_pow2_strictly_increases((k + 1) as nat, 31);
            }
        }
        count = count * 2;
        k += 1;
    }
    count
}

/// The weight of the subset `mask` of the first `N` indices, and whether its
/// size is odd.
pub fn subset_of<const N: usize>(weights: &[u32; N], mask: u32) -> (r: (i128, bool))
    requires
        N <= MAX_VARIABLES,
    ensures
        r.0 == subset_weight(weights@, mask as int, N as int),
        0 <= r.0 <= N * 0xffff_ffff,
        r.1 == (subset_size(mask as int, N as int) % 2 == 1),
{
    let mut z: i128 = 0;
    let mut odd = false;
    let mut rest: u32 = mask;
    let mut k: usize = 0;
    proof {
        lemma2_to64();
    }
    while k < N
        invariant
            k <= N <= MAX_VARIABLES,
            weights@.len() == N,
            rest == mask as int / (pow2(k as nat) as int),
            z == subset_weight(weights@, mask as int, k as int),
            0 <= z <= k * 0xffff_ffff,
            odd == (subset_size(mask as int, k as int) % 2 == 1),
        decreases N - k,
    {
        proof {
            lemma_pow2_pos(k as nat);
            lemma_pow2_unfold((k + 1) as nat);
            lemma_div_denominator(mask as int, pow2(k as nat) as int, 2);
            assert(pow2(k as nat) * 2 == 2 * pow2(k as nat)) by (nonlinear_arith);
        }
        if rest % 2 == 1 {
            z = z + weights[k] as i128;
            odd = !odd;
        }
        rest = rest / 2;
        k += 1;
    }
    (z, odd)
}

/// The weight of a subset lies between 0 and the sum of all weights.
pub proof fn lemma_subset_weight_bound(w: Seq<u32>, mask: int, n: int)
    requires
        0 <= n <= w.len(),
    ensures
        0 <= subset_weight(w, mask, n) <= n * 0xffff_ffff,
    decreases n,
{
    if n > 0 {
        lemma_subset_weight_bound(w, mask, n - 1);
    }
}

proof fn lemma_div_add_multiple(m: int, c: int, d: int)
    requires
        m >= 0,
        d > 0,
    ensures
        (m + c * d) / d == m / d + c,
{
    lemma_fundamental_div_mod(m, d);
    lemma_mod_pos_bound(m, d);
    assert((m / d + c) * d + m % d == m + c * d) by (nonlinear_arith)
        requires
            m == d * (m / d) + m % d,
    ;
    lemma_fundamental_div_mod_converse(m + c * d, d, m / d + c, m % d);
}

/// Adding `2^k` to a mask below `2^k` puts index `k` into the subset and
/// leaves the indices below `k` as they are.
pub proof fn lemma_top_index(m: int, k: nat, j: nat)
    requires
        0 <= m < pow2(k),
        j <= k,
    ensures
        j < k ==> in_subset(m + pow2(k), j) == in_subset(m, j),
        !in_subset(m, k),
        in_subset(m + pow2(k), k),
{
    let d = pow2(k) as int;
    lemma_pow2_pos(k);
    lemma_basic_div(m, d);
    assert(1 * d == d);
    lemma_div_add_multiple(m, 1, d);
    if j < k {
        let dj = pow2(j) as int;
        let c = pow2((k - j) as nat) as int;
        lemma_pow2_pos(j);
        lemma_pow2_adds(j, (k - j) as nat);
        assert(d == c * dj) by (nonlinear_arith)
            requires
                d == dj * c,
        ;
        lemma_div_add_multiple(m, c, dj);
        lemma_pow2_unfold((k - j) as nat);
    }
}

/// A mask below `2^k` names the same subset of the first `n <= k` indices
/// with or without `2^k` added, whether the weights are followed by another
/// weight or not.
pub proof fn lemma_lower_indices(w: Seq<u32>, m: int, n: int)
    requires
        w.len() >= 1,
        0 <= m < pow2((w.len() - 1) as nat),
        0 <= n <= w.len() - 1,
    ensures
        subset_weight(w, m, n) == subset_weight(w.drop_last(), m, n),
        subset_weight(w, m + pow2((w.len() - 1) as nat), n) == subset_weight(w.drop_last(), m, n),
        subset_size(m + pow2((w.len() - 1) as nat), n) == subset_size(m, n),
    decreases n,
{
    if n > 0 {
        lemma_lower_indices(w, m, n - 1);
        lemma_top_index(m, (w.len() - 1) as nat, (n - 1) as nat);
    }
}

/// The subsets of `k + 1` indices are the subsets of `k` indices, each once
/// without the last index, as the same mask, and once with it, as the mask
/// plus `2^k`.
pub proof fn lemma_last_index(w: Seq<u32>, m: int)
    requires
        w.len() >= 1,
        0 <= m < pow2((w.len() - 1) as nat),
    ensures
        ({
            let k = w.len() - 1;
            let with_last = m + pow2(k as nat);
            &&& subset_weight(w, m, w.len() as int) == subset_weight(w.drop_last(), m, k)
            &&& subset_size(m, w.len() as int) == subset_size(m, k)
            &&& subset_weight(w, with_last, w.len() as int) == subset_weight(w.drop_last(), m, k)
                + w.last()
            &&& subset_size(with_last, w.len() as int) == subset_size(m, k) + 1
        }),
{
    let k = (w.len() - 1) as nat;
    lemma_lower_indices(w, m, k as int);
    lemma_top_index(m, k, k);
}

} // verus!
