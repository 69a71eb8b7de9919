//! The rank transform: every present sample of a grid is replaced by its rank
//! divided by the number of present samples, which spreads any distribution
//! of samples evenly over `(0, 1]`.

use crate::grid::{cell_world_pos, world_fits, world_pos, GridSize, Vec2};
use crate::rank::{
    count_before, count_present, is_present, lemma_absent_cell_is_ignored, lemma_rank_bounds,
    lemma_rank_order, present_count, rank_of, ranked_before, shifted,
};
use crate::sample::{is_nan, order_key, spec_is_nan, spec_order_key, ZERO_BITS};
use crate::sort::{entry_le, entry_lt, sort_entries, sorted};
use vstd::prelude::*;
use vstd::relations::{sorted_by, total_ordering};
use vstd::seq_lib::*;

verus! {

/// A fraction `num / den` of two machine integers.
#[derive(Clone, Copy, Debug, PartialEq, Eq, Structural)]
pub struct Fraction {
    pub num: usize,
    pub den: usize,
}

impl Fraction {
    /// Whether the fraction lies in `[0, 1]` and has a positive denominator.
    pub open spec fn is_unit(self) -> bool {
        0 < self.den && self.num <= self.den
    }

    /// Whether `self` is less than `other`, both having positive denominators.
    pub open spec fn less_than(self, other: Fraction) -> bool {
        self.num * other.den < other.num * self.den
    }
}

/// For each cell of a grid, by flat index, its uniformised fraction and the
/// sample it was computed from.
pub type InverseCdf = Vec<(Fraction, u32)>;

/// What the rank transform holds for cell `i`: for a present sample its rank
/// over the number of present samples, and the sample; for an absent one the
/// fraction 0 and the pattern of zero.
pub open spec fn uniformized_cell(s: Seq<Option<u32>>, i: int) -> (Fraction, u32) {
    match s[i] {
        Some(v) => (Fraction { num: rank_of(s, i) as usize, den: present_count(s) as usize }, v),
        None => (Fraction { num: 0, den: 1 }, ZERO_BITS),
    }
}

/// The rank transform of a grid of samples.
pub open spec fn uniformized(s: Seq<Option<u32>>) -> Seq<(Fraction, u32)> {
    Seq::new(s.len(), |i: int| uniformized_cell(s, i))
}

/// The entry that stands for the sample `v` of cell `i` while sorting.
spec fn entry_of(v: u32, i: int) -> (i32, usize) {
    (spec_order_key(v) as i32, i as usize)
}

/// The entries of the present cells among the first `n`, by flat index.
spec fn present_entries(s: Seq<Option<u32>>, n: int) -> Seq<(i32, usize)>
    decreases n,
{
    if n <= 0 {
        Seq::empty()
    } else {
        match s[n - 1] {
            Some(v) => present_entries(s, n - 1).push(entry_of(v, n - 1)),
            None => present_entries(s, n - 1),
        }
    }
}

/// Number of entries that come strictly before `e`.
spec fn count_below(es: Seq<(i32, usize)>, e: (i32, usize)) -> nat
    decreases es.len(),
{
    if es.len() == 0 {
        0
    } else if entry_lt(es.last(), e) {
        count_below(es.drop_last(), e) + 1
    } else {
        count_below(es.drop_last(), e)
    }
}

proof fn lemma_count_below_push(es: Seq<(i32, usize)>, x: (i32, usize), e: (i32, usize))
    ensures
        count_below(es.push(x), e) == count_below(es, e) + (if entry_lt(x, e) {
            1int
        } else {
            0int
        }),
{
    assert(es.push(x).drop_last() =~= es);
}

proof fn lemma_count_below_concat(a: Seq<(i32, usize)>, b: Seq<(i32, usize)>, e: (i32, usize))
    ensures
        count_below(a + b, e) == count_below(a, e) + count_below(b, e),
    decreases b.len(),
{
    if b.len() == 0 {
        assert(a + b =~= a);
    } else {
        lemma_count_below_concat(a, b.drop_last(), e);
        assert((a + b).drop_last() =~= a + b.drop_last());
    }
}

proof fn lemma_count_below_remove(t: Seq<(i32, usize)>, j: int, e: (i32, usize))
    requires
        0 <= j < t.len(),
    ensures
        count_below(t, e) == count_below(t.remove(j), e) + (if entry_lt(t[j], e) {
            1int
        } else {
            0int
        }),
{
    let a = t.subrange(0, j);
    let b = t.subrange(j + 1, t.len() as int);
    assert(t =~= a.push(t[j]) + b);
    assert(t.remove(j) =~= a + b);
    lemma_count_below_concat(a.push(t[j]), b, e);
    lemma_count_below_concat(a, b, e);
    lemma_count_below_push(a, t[j], e);
}

/// Two arrangements of the same entries hold equally many below `e`.
proof fn lemma_count_below_permutation(a: Seq<(i32, usize)>, b: Seq<(i32, usize)>, e: (i32, usize))
    requires
        a.to_multiset() == b.to_multiset(),
    ensures
        count_below(a, e) == count_below(b, e),
    decreases a.len(),
{
    broadcast use group_to_multiset_ensures;

    if a.len() == 0 {
        to_multiset_len(a);
        to_multiset_len(b);
    } else {
        let x = a.last();
        let a1 = a.drop_last();
        assert(a =~= a1.push(x));
        assert(a.to_multiset().count(x) > 0);
        assert(b.contains(x));
        let j = choose|j: int| 0 <= j < b.len() && b[j] == x;
        let b1 = b.remove(j);
        assert(a1.to_multiset() =~= b1.to_multiset());
        lemma_count_below_permutation(a1, b1, e);
        lemma_count_below_remove(b, j, e);
    }
}

/// In an ascending arrangement without repetition, as many entries come
/// below an entry as stand before it.
proof fn lemma_count_below_sorted(t: Seq<(i32, usize)>, n: int, k: int)
    requires
        sorted(t),
        t.no_duplicates(),
        0 <= k < t.len(),
        0 <= n <= t.len(),
    ensures
        count_below(t.take(n), t[k]) == (if n <= k {
            n
        } else {
            k
        }),
    decreases n,
{
    if n > 0 {
        lemma_count_below_sorted(t, n - 1, k);
        assert(t.take(n).drop_last() =~= t.take(n - 1));
        assert(t.take(n).last() == t[n - 1]);
        if n - 1 < k {
            assert(entry_le(t[n - 1], t[k]));
            assert(t[n - 1] != t[k]);
        } else if n - 1 > k {
            assert(entry_le(t[k], t[n - 1]));
        }
    }
}

proof fn lemma_present_entries(s: Seq<Option<u32>>, n: int)
    requires
        0 <= n <= s.len() <= usize::MAX,
    ensures
        present_entries(s, n).len() == count_present(s, n),
        forall|a: int|
            0 <= a < present_entries(s, n).len() ==> {
                let x = #[trigger] present_entries(s, n)[a];
                0 <= x.1 < n && s[x.1 as int] is Some && x == entry_of(
                    s[x.1 as int].unwrap(),
                    x.1 as int,
                )
            },
        forall|a: int, b: int|
            0 <= a < b < present_entries(s, n).len() ==> (#[trigger] present_entries(s, n)[a]).1 < (
            #[trigger] present_entries(s, n)[b]).1,
    decreases n,
{
    if n > 0 {
        lemma_present_entries(s, n - 1);
    }
}

proof fn lemma_entries_count(s: Seq<Option<u32>>, n: int, v: u32, i: int)
    requires
        0 <= n <= s.len() <= usize::MAX,
        0 <= i <= usize::MAX,
    ensures
        count_below(present_entries(s, n), entry_of(v, i)) == count_before(s, n, v, i),
    decreases n,
{
    if n > 0 {
        lemma_entries_count(s, n - 1, v, i);
        match s[n - 1] {
            Some(u) => {
                lemma_count_below_push(present_entries(s, n - 1), entry_of(u, n - 1), entry_of(v, i));
                assert(entry_lt(entry_of(u, n - 1), entry_of(v, i)) == ranked_before(u, n - 1, v, i));
            },
            None => {},
        }
    }
}

/// In an ascending arrangement of the present cells' entries, the entry at
/// place `k` is that of the cell of rank `k + 1`.
proof fn lemma_sorted_rank(s: Seq<Option<u32>>, t: Seq<(i32, usize)>, k: int)
    requires
        s.len() <= usize::MAX,
        sorted(t),
        t.to_multiset() == present_entries(s, s.len() as int).to_multiset(),
        0 <= k < t.len(),
    ensures
        t.len() == present_count(s),
        is_present(s, t[k].1 as int),
        rank_of(s, t[k].1 as int) == k + 1,
{
    broadcast use group_to_multiset_ensures;

    let n = s.len() as int;
    let p = present_entries(s, n);
    lemma_present_entries(s, n);
    to_multiset_len(p);
    to_multiset_len(t);
    assert(t.contains(t[k]));
    assert(p.to_multiset().count(t[k]) > 0);
    assert(p.contains(t[k]));
    let a = choose|a: int| 0 <= a < p.len() && p[a] == t[k];
    let i = t[k].1 as int;
    let v = s[i].unwrap();
    assert(p[a] == entry_of(v, i));
    assert(p.no_duplicates()) by {
        assert forall|x: int, y: int| 0 <= x < p.len() && 0 <= y < p.len() && x != y implies p[x]
            != p[y] by {
            if x < y {
                assert(p[x].1 < p[y].1);
            } else {
                assert(p[y].1 < p[x].1);
            }
        }
    }
    p.lemma_multiset_has_no_duplicates();
    t.lemma_multiset_has_no_duplicates_conv();
    lemma_count_below_sorted(t, t.len() as int, k);
    assert(t.take(t.len() as int) =~= t);
    lemma_count_below_permutation(t, p, t[k]);
    lemma_entries_count(s, n, v, i);
}

/// The rank transform of `samples`: the cell of a present sample holds its
/// rank over the number of present samples, together with the sample; the
/// cell of an absent sample holds the fraction 0 and the pattern of zero.
/// No present sample may be a NaN.
pub fn uniformize(samples: &Vec<Option<u32>>) -> (out: InverseCdf)
    requires
        forall|i: int|
            0 <= i < samples.len() ==> ((#[trigger] samples@[i]) matches Some(v) ==> !spec_is_nan(
                v,
            )),
    ensures
        out@ == uniformized(samples@),
        out.len() == samples.len(),
        forall|i: int| 0 <= i < out.len() ==> (#[trigger] out@[i]).0.is_unit(),
{
    let n = samples.len();
    let mut entries: Vec<(i32, usize)> = Vec::new();
    let mut out: InverseCdf = Vec::new();
    let mut i: usize = 0;
    while i < n
        invariant
            n == samples.len(),
            i <= n,
            entries@ == present_entries(samples@, i as int),
            out.len() == i,
            forall|c: int| 0 <= c < i ==> #[trigger] out@[c] == (Fraction { num: 0, den: 1 }, ZERO_BITS),
        decreases n - i,
    {
        match samples[i] {
            Some(v) => {
                entries.push((order_key(v), i));
            },
            None => {},
        }
        out.push((Fraction { num: 0, den: 1 }, ZERO_BITS));
        i += 1;
    }
    let ranked = sort_entries(&entries);
    let total = ranked.len();
    let mut k: usize = 0;
    while k < total
        invariant
            n == samples.len(),
            out.len() == n,
            total == ranked.len(),
            k <= total,
            sorted(ranked@),
            ranked@.to_multiset() == present_entries(samples@, n as int).to_multiset(),
            forall|c: int|
                0 <= c < n ==> #[trigger] out@[c] == (if is_present(samples@, c) && rank_of(
                    samples@,
                    c,
                ) <= k {
                    uniformized_cell(samples@, c)
                } else {
                    (Fraction { num: 0, den: 1 }, ZERO_BITS)
                }),
        decreases total - k,
    {
        let idx = ranked[k].1;
        proof {
            lemma_sorted_rank(samples@, ranked@, k as int);
            assert forall|c: int| 0 <= c < n && c != idx && is_present(samples@, c) implies rank_of(
                samples@,
                c,
            ) != k + 1 by {
                lemma_rank_order(samples@, c, idx as int);
            }
        }
        let v = samples[idx].unwrap();
        out.set(idx, (Fraction { num: k + 1, den: total }, v));
        k += 1;
    }
    proof {
        assert forall|c: int| 0 <= c < n implies out@[c] == uniformized_cell(samples@, c) by {
            lemma_rank_bounds(samples@, c);
            lemma_present_entries(samples@, n as int);
            to_multiset_len(ranked@);
            to_multiset_len(present_entries(samples@, n as int));
        }
        assert(out@ =~= uniformized(samples@));
        assert forall|c: int| 0 <= c < out.len() implies (#[trigger] out@[c]).0.is_unit() by {
            lemma_fraction_order(samples@, c, c);
        }
    }
    out
}

/// Whether a present sample is a NaN.
pub open spec fn has_nan(s: Seq<Option<u32>>) -> bool {
    exists|i: int| 0 <= i < s.len() && ((#[trigger] s[i]) matches Some(v) && spec_is_nan(v))
}

/// The rank transform of `samples`, or `None` where a present sample is a
/// NaN.
pub fn try_uniformize(samples: &Vec<Option<u32>>) -> (out: Option<InverseCdf>)
    ensures
        out.is_none() == has_nan(samples@),
        out matches Some(grid) ==> grid@ == uniformized(samples@),
{
    let mut i: usize = 0;
    while i < samples.len()
        invariant
            i <= samples.len(),
            forall|c: int|
                0 <= c < i ==> ((#[trigger] samples@[c]) matches Some(v) ==> !spec_is_nan(v)),
        decreases samples.len() - i,
    {
        match samples[i] {
            Some(v) => {
                if is_nan(v) {
                    assert(samples@[i as int] matches Some(v) && spec_is_nan(v));
                    return None;
                }
            },
            None => {},
        }
        i += 1;
    }
    Some(uniformize(samples))
}

/// No more cells are present than there are cells.
pub proof fn lemma_present_count_bound(s: Seq<Option<u32>>, n: int)
    requires
        0 <= n <= s.len(),
    ensures
        count_present(s, n) <= n,
    decreases n,
{
    if n > 0 {
        lemma_present_count_bound(s, n - 1);
    }
}

/// The fraction of a present cell lies in `(0, 1]`, that of an absent cell is
/// 0 over 1, and the fractions of two present cells are ordered as the cells
/// are ranked: by their numbers, and by flat index where the numbers are
/// equal.
pub proof fn lemma_fraction_order(s: Seq<Option<u32>>, c1: int, c2: int)
    requires
        s.len() <= usize::MAX,
        0 <= c1 < s.len(),
        0 <= c2 < s.len(),
    ensures
        uniformized_cell(s, c1).0.is_unit(),
        s[c1] is Some <==> uniformized_cell(s, c1).0.num > 0,
        s[c1] is Some ==> uniformized_cell(s, c1).0.num == rank_of(s, c1)
            && uniformized_cell(s, c1).0.den == present_count(s),
        s[c1] is Some && s[c2] is Some ==> (ranked_before(s[c1].unwrap(), c1, s[c2].unwrap(), c2)
            <==> uniformized_cell(s, c1).0.less_than(uniformized_cell(s, c2).0)),
{
    lemma_present_count_bound(s, s.len() as int);
    lemma_rank_bounds(s, c1);
    lemma_rank_bounds(s, c2);
    if s[c1] is Some && s[c2] is Some {
        lemma_rank_order(s, c1, c2);
        let r1 = rank_of(s, c1) as int;
        let r2 = rank_of(s, c2) as int;
        let d = present_count(s) as int;
        assert((r1 < r2) <==> (r1 * d < r2 * d)) by (nonlinear_arith)
            requires
                d > 0,
        ;
    }
}

/// The ranks leave no gap: every number from 1 to the number of present cells
/// is the rank of a present cell, so that the fractions of the present cells
/// are the multiples of the reciprocal of their number, up to 1.
pub proof fn lemma_every_rank_occurs(s: Seq<Option<u32>>, r: int)
    requires
        s.len() <= usize::MAX,
        1 <= r <= present_count(s),
    ensures
        exists|i: int| is_present(s, i) && rank_of(s, i) == r,
{
    let leq = |a: (i32, usize), b: (i32, usize)| entry_le(a, b);
    assert(total_ordering(leq));
    let p = present_entries(s, s.len() as int);
    p.lemma_sort_by_ensures(leq);
    let t = p.sort_by(leq);
    assert(sorted(t)) by {
        assert forall|a: int, b: int| 0 <= a < b < t.len() implies entry_le(
            #[trigger] t[a],
            #[trigger] t[b],
        ) by {
            assert(leq(t[a], t[b]));
        }
    }
    lemma_present_entries(s, s.len() as int);
    to_multiset_len(p);
    to_multiset_len(t);
    lemma_sorted_rank(s, t, r - 1);
    let i = t[r - 1].1 as int;
    assert(is_present(s, i) && rank_of(s, i) == r);
}

/// An absent cell changes nothing for the others: the rank transform of a
/// grid with an absent cell put in at `at` is the rank transform of the grid
/// as it was, with the pair of an absent cell put in at `at`.
pub proof fn lemma_absent_cell_keeps_fractions(s: Seq<Option<u32>>, at: int)
    requires
        0 <= at <= s.len(),
    ensures
        uniformized(s.insert(at, None)) == uniformized(s).insert(
            at,
            (Fraction { num: 0, den: 1 }, ZERO_BITS),
        ),
{
    let t = s.insert(at, None);
    let lhs = uniformized(t);
    let rhs = uniformized(s).insert(at, (Fraction { num: 0, den: 1 }, ZERO_BITS));
    assert(lhs.len() == rhs.len());
    assert forall|c: int| 0 <= c < lhs.len() implies lhs[c] == rhs[c] by {
        if c == at {
            assert(t[at] == None::<u32>);
        } else {
            let i = if c < at {
                c
            } else {
                c - 1
            };
            assert(shifted(i, at) == c);
            lemma_absent_cell_is_ignored(s, at, i);
            assert(rhs[c] == uniformized(s)[i]);
        }
    }
    assert(lhs =~= rhs);
}

/// The world position handed to the sampling function for cell `idx`.
pub open spec fn sample_pos(size: GridSize, cell_size: Vec2, idx: int) -> Vec2 {
    Vec2 { x: world_pos(size, cell_size, idx).0 as i32, y: world_pos(size, cell_size, idx).1 as i32 }
}

/// Whether `samples` holds, for every cell of the grid, a result of `f` on the
/// cell's flat index and world position.
pub open spec fn sampled_by<F: Fn(usize, Vec2) -> Option<u32>>(
    f: F,
    size: GridSize,
    cell_size: Vec2,
    samples: Seq<Option<u32>>,
) -> bool {
    &&& samples.len() == size.spec_cells()
    &&& forall|i: int|
        0 <= i < samples.len() ==> call_ensures(
            f,
            (i as usize, sample_pos(size, cell_size, i)),
            #[trigger] samples[i],
        )
}

/// Whether `f` has one result only for each cell and position.
pub open spec fn single_valued<F: Fn(usize, Vec2) -> Option<u32>>(f: F) -> bool {
    forall|i: usize, pos: Vec2, a: Option<u32>, b: Option<u32>|
        #[trigger] call_ensures(f, (i, pos), a) && #[trigger] call_ensures(f, (i, pos), b) ==> a
            == b
}

/// Sampling the same grid again with a function that has one result only for
/// each cell gives the same samples, and so the same rank transform.
pub proof fn lemma_reproducible<F: Fn(usize, Vec2) -> Option<u32>>(
    f: F,
    size: GridSize,
    cell_size: Vec2,
    first: Seq<Option<u32>>,
    second: Seq<Option<u32>>,
)
    requires
        single_valued(f),
        sampled_by(f, size, cell_size, first),
        sampled_by(f, size, cell_size, second),
    ensures
        first == second,
        uniformized(first) == uniformized(second),
{
    assert forall|i: int| 0 <= i < first.len() implies first[i] == second[i] by {
        assert(call_ensures(f, (i as usize, sample_pos(size, cell_size, i)), first[i]));
        assert(call_ensures(f, (i as usize, sample_pos(size, cell_size, i)), second[i]));
    }
    assert(first =~= second);
}

/// Samples every cell of the grid once, by ascending flat index.
pub fn collect_samples<F: Fn(usize, Vec2) -> Option<u32>>(
    size: &GridSize,
    cell_size: Vec2,
    f: &F,
) -> (samples: Vec<Option<u32>>)
    requires
        world_fits(*size, cell_size),
        forall|i: int|
            0 <= i < size.spec_cells() ==> call_requires(
                f,
                (i as usize, #[trigger] sample_pos(*size, cell_size, i)),
            ),
    ensures
        sampled_by(*f, *size, cell_size, samples@),
{
    let n = size.cells();
    let mut samples: Vec<Option<u32>> = Vec::new();
    let mut i: usize = 0;
    while i < n
        invariant
            n == size.spec_cells(),
            i <= n,
            samples.len() == i,
            world_fits(*size, cell_size),
            forall|c: int|
                0 <= c < size.spec_cells() ==> call_requires(
                    f,
                    (c as usize, #[trigger] sample_pos(*size, cell_size, c)),
                ),
            forall|c: int|
                0 <= c < i ==> call_ensures(
                    f,
                    (c as usize, sample_pos(*size, cell_size, c)),
                    #[trigger] samples@[c],
                ),
        decreases n - i,
    {
        let pos = cell_world_pos(size, cell_size, i);
        assert(pos == sample_pos(*size, cell_size, i as int));
        let sample = f(i, pos);
        samples.push(sample);
        i += 1;
    }
    samples
}

/// Samples every cell of the grid with `f`, which is given the cell's flat
/// index and world position, and returns the rank transform of the samples.
/// `f` may return no NaN.
pub fn uniform_noise<F: Fn(usize, Vec2) -> Option<u32>>(
    size: &GridSize,
    cell_size: Vec2,
    f: F,
) -> (out: InverseCdf)
    requires
        world_fits(*size, cell_size),
        forall|i: int|
            0 <= i < size.spec_cells() ==> call_requires(
                f,
                (i as usize, #[trigger] sample_pos(*size, cell_size, i)),
            ),
        forall|i: usize, p: Vec2, v: u32| call_ensures(f, (i, p), Some(v)) ==> !spec_is_nan(v),
    ensures
        exists|samples: Seq<Option<u32>>|
            sampled_by(f, *size, cell_size, samples) && out@ == uniformized(samples),
{
    let samples = collect_samples(size, cell_size, &f);
    uniformize(&samples)
}

/// Samples every cell of the grid with `f` and returns the rank transform of
/// the samples, or `None` where `f` returned a NaN.
pub fn try_uniform_noise<F: Fn(usize, Vec2) -> Option<u32>>(
    size: &GridSize,
    cell_size: Vec2,
    f: F,
) -> (out: Option<InverseCdf>)
    requires
        world_fits(*size, cell_size),
        forall|i: int|
            0 <= i < size.spec_cells() ==> call_requires(
                f,
                (i as usize, #[trigger] sample_pos(*size, cell_size, i)),
            ),
    ensures
        exists|samples: Seq<Option<u32>>|
            sampled_by(f, *size, cell_size, samples) && out.is_none() == has_nan(samples) && (
            out matches Some(grid) ==> grid@ == uniformized(samples)),
{
    let samples = collect_samples(size, cell_size, &f);
    try_uniformize(&samples)
}

} // verus!
