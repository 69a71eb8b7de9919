//! The rank of a sample among the present samples of a grid.
//!
//! Samples are IEEE 754 single-precision bit patterns; an absent sample is
//! `None`. A present sample is ranked by its number first and by the flat
//! index of its cell second, so that no two cells share a rank.

use crate::sample::spec_order_key;
use vstd::prelude::*;

verus! {

/// Whether the sample `u` of cell `j` is ranked before the sample `v` of
/// cell `i`: its number is less, or the numbers are equal and `j < i`.
pub open spec fn ranked_before(u: u32, j: int, v: u32, i: int) -> bool {
    spec_order_key(u) < spec_order_key(v) || (spec_order_key(u) == spec_order_key(v) && j < i)
}

/// Whether cell `j` exists and has a sample.
pub open spec fn is_present(s: Seq<Option<u32>>, j: int) -> bool {
    0 <= j < s.len() && s[j] is Some
}

/// Number of cells among the first `n` that have a sample.
pub open spec fn count_present(s: Seq<Option<u32>>, n: int) -> nat
    decreases n,
{
    if n <= 0 {
        0
    } else if s[n - 1] is Some {
        count_present(s, n - 1) + 1
    } else {
        count_present(s, n - 1)
    }
}

/// Number of cells that have a sample.
pub open spec fn present_count(s: Seq<Option<u32>>) -> nat {
    count_present(s, s.len() as int)
}

/// Number of cells among the first `n` whose sample is ranked before the
/// sample `v` of cell `i`.
pub open spec fn count_before(s: Seq<Option<u32>>, n: int, v: u32, i: int) -> nat
    decreases n,
{
    if n <= 0 {
        0
    } else {
        match s[n - 1] {
            Some(u) => if ranked_before(u, n - 1, v, i) {
                count_before(s, n - 1, v, i) + 1
            } else {
                count_before(s, n - 1, v, i)
            },
            None => count_before(s, n - 1, v, i),
        }
    }
}

/// The rank of cell `i`: one more than the number of cells whose sample is
/// ranked before its own. A cell without a sample has rank 0.
pub open spec fn rank_of(s: Seq<Option<u32>>, i: int) -> nat {
    match s[i] {
        Some(v) => 1 + count_before(s, s.len() as int, v, i),
        None => 0,
    }
}

/// Among the first `n` cells, those ranked before a present cell are fewer
/// than the present ones, the cell itself not being ranked before itself.
proof fn lemma_count_before_bound(s: Seq<Option<u32>>, n: int, i: int)
    requires
        is_present(s, i),
        0 <= n <= s.len(),
    ensures
        count_before(s, n, s[i].unwrap(), i) + (if i < n { 1int } else { 0int }) <= count_present(s, n),
    decreases n,
{
    if n > 0 {
        lemma_count_before_bound(s, n - 1, i);
    }
}

/// What is ranked before cell `i` is ranked before any cell that `i` is
/// ranked before, and so is `i` itself.
proof fn lemma_count_before_grows(s: Seq<Option<u32>>, n: int, i: int, j: int)
    requires
        is_present(s, i),
        is_present(s, j),
        ranked_before(s[i].unwrap(), i, s[j].unwrap(), j),
        0 <= n <= s.len(),
    ensures
        count_before(s, n, s[i].unwrap(), i) + (if i < n { 1int } else { 0int }) <= count_before(
            s,
            n,
            s[j].unwrap(),
            j,
        ),
    decreases n,
{
    if n > 0 {
        lemma_count_before_grows(s, n - 1, i, j);
    }
}

/// A present cell's rank lies between 1 and the number of present cells, so
/// its rank divided by that number lies in `(0, 1]`; an absent cell has rank 0.
pub proof fn lemma_rank_bounds(s: Seq<Option<u32>>, i: int)
    requires
        0 <= i < s.len(),
    ensures
        s[i] is Some ==> 1 <= rank_of(s, i) <= present_count(s),
        s[i] is None ==> rank_of(s, i) == 0,
{
    if s[i] is Some {
        lemma_count_before_bound(s, s.len() as int, i);
    }
}

/// Ranks follow the samples: of two present cells, the one with the lesser
/// number has the lesser rank; where the numbers are equal, the one with the
/// lower flat index has the lesser rank; and no two cells share a rank.
pub proof fn lemma_rank_order(s: Seq<Option<u32>>, c1: int, c2: int)
    requires
        is_present(s, c1),
        is_present(s, c2),
    ensures
        spec_order_key(s[c1].unwrap()) < spec_order_key(s[c2].unwrap()) ==> rank_of(s, c1)
            < rank_of(s, c2),
        spec_order_key(s[c1].unwrap()) == spec_order_key(s[c2].unwrap()) && c1 < c2 ==> rank_of(
            s,
            c1,
        ) < rank_of(s, c2),
        ranked_before(s[c1].unwrap(), c1, s[c2].unwrap(), c2) <==> rank_of(s, c1) < rank_of(s, c2),
        c1 != c2 ==> rank_of(s, c1) != rank_of(s, c2),
{
    let n = s.len() as int;
    if ranked_before(s[c1].unwrap(), c1, s[c2].unwrap(), c2) {
        lemma_count_before_grows(s, n, c1, c2);
    }
    if ranked_before(s[c2].unwrap(), c2, s[c1].unwrap(), c1) {
        lemma_count_before_grows(s, n, c2, c1);
    }
}

/// Whether every present cell among the first `n`, other than `i`, is ranked
/// before cell `i`.
pub open spec fn greatest_among(s: Seq<Option<u32>>, n: int, i: int) -> bool {
    forall|j: int|
        0 <= j < n && j != i && (#[trigger] s[j]) is Some ==> ranked_before(
            s[j].unwrap(),
            j,
            s[i].unwrap(),
            i,
        )
}

/// Whether cell `i` is ranked before every other present cell among the
/// first `n`.
pub open spec fn least_among(s: Seq<Option<u32>>, n: int, i: int) -> bool {
    forall|j: int|
        0 <= j < n && j != i && (#[trigger] s[j]) is Some ==> ranked_before(
            s[i].unwrap(),
            i,
            s[j].unwrap(),
            j,
        )
}

proof fn lemma_count_full_iff_greatest(s: Seq<Option<u32>>, n: int, i: int)
    requires
        is_present(s, i),
        0 <= n <= s.len(),
    ensures
        count_before(s, n, s[i].unwrap(), i) + (if i < n { 1int } else { 0int }) == count_present(
            s,
            n,
        ) <==> greatest_among(s, n, i),
    decreases n,
{
    if n > 0 {
        lemma_count_full_iff_greatest(s, n - 1, i);
        lemma_count_before_bound(s, n - 1, i);
        let k = n - 1;
        if greatest_among(s, n, i) {
            assert(greatest_among(s, n - 1, i));
            if k != i && s[k] is Some {
                assert(ranked_before(s[k].unwrap(), k, s[i].unwrap(), i));
            }
        }
        if greatest_among(s, n - 1, i) && (k == i || s[k] is None || ranked_before(
            s[k].unwrap(),
            k,
            s[i].unwrap(),
            i,
        )) {
            assert(greatest_among(s, n, i));
        }
    }
}

proof fn lemma_count_zero_iff_least(s: Seq<Option<u32>>, n: int, i: int)
    requires
        is_present(s, i),
        0 <= n <= s.len(),
    ensures
        count_before(s, n, s[i].unwrap(), i) == 0 <==> least_among(s, n, i),
    decreases n,
{
    if n > 0 {
        lemma_count_zero_iff_least(s, n - 1, i);
        let k = n - 1;
        if least_among(s, n, i) {
            assert(least_among(s, n - 1, i));
            if k != i && s[k] is Some {
                assert(ranked_before(s[i].unwrap(), i, s[k].unwrap(), k));
            }
        }
        if least_among(s, n - 1, i) && (k == i || s[k] is None || ranked_before(
            s[i].unwrap(),
            i,
            s[k].unwrap(),
            k,
        )) {
            assert(least_among(s, n, i));
        }
    }
}

/// A present cell has the greatest rank, the number of present cells, exactly
/// if every other present cell is ranked before it; it has rank 1 exactly if
/// it is ranked before every other present cell.
pub proof fn lemma_extreme_ranks(s: Seq<Option<u32>>, i: int)
    requires
        is_present(s, i),
    ensures
        rank_of(s, i) == present_count(s) <==> greatest_among(s, s.len() as int, i),
        rank_of(s, i) == 1 <==> least_among(s, s.len() as int, i),
{
    lemma_count_full_iff_greatest(s, s.len() as int, i);
    lemma_count_zero_iff_least(s, s.len() as int, i);
}

/// The present cell among the first `n` that is ranked before the others, or
/// -1 where none is present.
pub open spec fn least_cell(s: Seq<Option<u32>>, n: int) -> int
    decreases n,
{
    if n <= 0 {
        -1
    } else {
        let m = least_cell(s, n - 1);
        match s[n - 1] {
            Some(v) => if m < 0 || ranked_before(v, n - 1, s[m].unwrap(), m) {
                n - 1
            } else {
                m
            },
            None => m,
        }
    }
}

/// The present cell among the first `n` that the others are ranked before,
/// or -1 where none is present.
pub open spec fn greatest_cell(s: Seq<Option<u32>>, n: int) -> int
    decreases n,
{
    if n <= 0 {
        -1
    } else {
        let m = greatest_cell(s, n - 1);
        match s[n - 1] {
            Some(v) => if m < 0 || ranked_before(s[m].unwrap(), m, v, n - 1) {
                n - 1
            } else {
                m
            },
            None => m,
        }
    }
}

/// Where none of the first `n` cells is counted as present, each is absent.
proof fn lemma_none_present(s: Seq<Option<u32>>, n: int)
    requires
        0 <= n <= s.len(),
        count_present(s, n) == 0,
    ensures
        forall|j: int| 0 <= j < n ==> (#[trigger] s[j]) is None,
    decreases n,
{
    if n > 0 {
        lemma_none_present(s, n - 1);
    }
}

proof fn lemma_least_cell(s: Seq<Option<u32>>, n: int)
    requires
        0 <= n <= s.len(),
    ensures
        count_present(s, n) == 0 ==> least_cell(s, n) == -1,
        count_present(s, n) > 0 ==> 0 <= least_cell(s, n) < n && s[least_cell(s, n)] is Some
            && least_among(s, n, least_cell(s, n)),
    decreases n,
{
    if n > 0 {
        lemma_least_cell(s, n - 1);
        let m = least_cell(s, n - 1);
        let r = least_cell(s, n);
        if count_present(s, n) > 0 {
            assert forall|j: int| 0 <= j < n && j != r && (#[trigger] s[j]) is Some implies ranked_before(
                s[r].unwrap(),
                r,
                s[j].unwrap(),
                j,
            ) by {
                if m < 0 {
                    lemma_none_present(s, n - 1);
                } else if j < n - 1 && j != m {
                    assert(ranked_before(s[m].unwrap(), m, s[j].unwrap(), j));
                }
            }
        }
    }
}

proof fn lemma_greatest_cell(s: Seq<Option<u32>>, n: int)
    requires
        0 <= n <= s.len(),
    ensures
        count_present(s, n) == 0 ==> greatest_cell(s, n) == -1,
        count_present(s, n) > 0 ==> 0 <= greatest_cell(s, n) < n && s[greatest_cell(s, n)] is Some
            && greatest_among(s, n, greatest_cell(s, n)),
    decreases n,
{
    if n > 0 {
        lemma_greatest_cell(s, n - 1);
        let m = greatest_cell(s, n - 1);
        let r = greatest_cell(s, n);
        if count_present(s, n) > 0 {
            assert forall|j: int| 0 <= j < n && j != r && (#[trigger] s[j]) is Some implies ranked_before(
                s[j].unwrap(),
                j,
                s[r].unwrap(),
                r,
            ) by {
                if m < 0 {
                    lemma_none_present(s, n - 1);
                } else if j < n - 1 && j != m {
                    assert(ranked_before(s[j].unwrap(), j, s[m].unwrap(), m));
                }
            }
        }
    }
}

/// Where any cell is present, one present cell has rank 1 and one has the
/// number of present cells as its rank: the least rank divided by that number
/// is its reciprocal, the greatest is 1.
pub proof fn lemma_extreme_ranks_occur(s: Seq<Option<u32>>)
    requires
        present_count(s) > 0,
    ensures
        is_present(s, least_cell(s, s.len() as int)),
        rank_of(s, least_cell(s, s.len() as int)) == 1,
        is_present(s, greatest_cell(s, s.len() as int)),
        rank_of(s, greatest_cell(s, s.len() as int)) == present_count(s),
{
    let n = s.len() as int;
    lemma_least_cell(s, n);
    lemma_greatest_cell(s, n);
    lemma_extreme_ranks(s, least_cell(s, n));
    lemma_extreme_ranks(s, greatest_cell(s, n));
}

/// Where flat index `i` stands once a cell has been put in at `at`.
pub open spec fn shifted(i: int, at: int) -> int {
    if i < at {
        i
    } else {
        i + 1
    }
}

proof fn lemma_insert_absent_prefix(s: Seq<Option<u32>>, at: int, n: int, v: u32, i: int)
    requires
        0 <= at <= s.len(),
        0 <= n <= at,
        0 <= i < s.len(),
    ensures
        count_before(s.insert(at, None), n, v, shifted(i, at)) == count_before(s, n, v, i),
        count_present(s.insert(at, None), n) == count_present(s, n),
    decreases n,
{
    if n > 0 {
        lemma_insert_absent_prefix(s, at, n - 1, v, i);
        assert(s.insert(at, None)[n - 1] == s[n - 1]);
    }
}

proof fn lemma_insert_absent_suffix(s: Seq<Option<u32>>, at: int, n: int, v: u32, i: int)
    requires
        0 <= at <= s.len(),
        at <= n <= s.len(),
        0 <= i < s.len(),
    ensures
        count_before(s.insert(at, None), n + 1, v, shifted(i, at)) == count_before(s, n, v, i),
        count_present(s.insert(at, None), n + 1) == count_present(s, n),
    decreases n,
{
    if n > at {
        lemma_insert_absent_suffix(s, at, n - 1, v, i);
        assert(s.insert(at, None)[n] == s[n - 1]);
    } else {
        lemma_insert_absent_prefix(s, at, at, v, i);
        assert(s.insert(at, None)[at] == None::<u32>);
    }
}

/// An absent cell takes no part in the ranking: putting one in at any place
/// leaves the number of present cells and the rank of every cell as they
/// were, the cells behind it moving up by one flat index.
pub proof fn lemma_absent_cell_is_ignored(s: Seq<Option<u32>>, at: int, i: int)
    requires
        0 <= at <= s.len(),
        0 <= i < s.len(),
    ensures
        present_count(s.insert(at, None)) == present_count(s),
        s.insert(at, None)[shifted(i, at)] == s[i],
        rank_of(s.insert(at, None), shifted(i, at)) == rank_of(s, i),
        rank_of(s.insert(at, None), at) == 0,
{
    let t = s.insert(at, None);
    assert(t[shifted(i, at)] == s[i]);
    match s[i] {
        Some(v) => {
            lemma_insert_absent_suffix(s, at, s.len() as int, v, i);
        },
        None => {
            lemma_insert_absent_suffix(s, at, s.len() as int, 0, i);
        },
    }
}

} // verus!
