//! Sorting of `(key, index)` entries, ascending by key and, among equal keys,
//! by index.

use vstd::prelude::*;
use vstd::seq_lib::*;

verus! {

/// Whether `a` comes strictly before `b`: by key first, by index second.
pub open spec fn entry_lt(a: (i32, usize), b: (i32, usize)) -> bool {
    a.0 < b.0 || (a.0 == b.0 && a.1 < b.1)
}

/// Whether `a` comes before `b` or is `b`.
pub open spec fn entry_le(a: (i32, usize), b: (i32, usize)) -> bool {
    !entry_lt(b, a)
}

/// Whether the entries stand in ascending order.
pub open spec fn sorted(s: Seq<(i32, usize)>) -> bool {
    forall|i: int, j: int| 0 <= i < j < s.len() ==> entry_le(#[trigger] s[i], #[trigger] s[j])
}

/// Decides [`entry_lt`].
pub fn precedes(a: (i32, usize), b: (i32, usize)) -> (before: bool)
    ensures
        before == entry_lt(a, b),
{
    a.0 < b.0 || (a.0 == b.0 && a.1 < b.1)
}

/// Merges two ascending vectors into one.
fn merge(left: &Vec<(i32, usize)>, right: &Vec<(i32, usize)>) -> (out: Vec<(i32, usize)>)
    requires
        sorted(left@),
        sorted(right@),
        left.len() + right.len() <= usize::MAX,
    ensures
        sorted(out@),
        out.len() == left.len() + right.len(),
        out@.to_multiset() == left@.to_multiset().add(right@.to_multiset()),
{
    let mut out: Vec<(i32, usize)> = Vec::new();
    let mut i: usize = 0;
    let mut j: usize = 0;
    proof {
        lemma_multiset_commutative(left@.take(0), right@.take(0));
        assert(left@.take(0) + right@.take(0) =~= out@);
    }
    while i < left.len() || j < right.len()
        invariant
            i <= left.len(),
            j <= right.len(),
            left.len() + right.len() <= usize::MAX,
            out.len() == i + j,
            sorted(left@),
            sorted(right@),
            sorted(out@),
            out@.to_multiset() == left@.take(i as int).to_multiset().add(
                right@.take(j as int).to_multiset(),
            ),
            forall|k: int, a: int|
                0 <= k < out.len() && i <= a < left.len() ==> entry_le(
                    #[trigger] out@[k],
                    #[trigger] left@[a],
                ),
            forall|k: int, b: int|
                0 <= k < out.len() && j <= b < right.len() ==> entry_le(
                    #[trigger] out@[k],
                    #[trigger] right@[b],
                ),
        decreases left.len() - i + right.len() - j,
    {
        let take_left = if i < left.len() && j < right.len() {
            !precedes(right[j], left[i])
        } else {
            i < left.len()
        };
        let ghost before = out@;
        if take_left {
            let x = left[i];
            out.push(x);
            proof {
                assert(left@.take(i + 1) =~= left@.take(i as int).push(x));
                to_multiset_build(left@.take(i as int), x);
                to_multiset_build(before, x);
                assert(out@.to_multiset() =~= left@.take(i + 1).to_multiset().add(
                    right@.take(j as int).to_multiset(),
                ));
                assert forall|k: int, b: int|
                    0 <= k < out.len() && j <= b < right.len() implies entry_le(
                    #[trigger] out@[k],
                    #[trigger] right@[b],
                ) by {
                    if k == before.len() {
                        assert(entry_le(x, right@[j as int]));
                        assert(entry_le(right@[j as int], right@[b]));
                    } else {
                        assert(out@[k] == before[k]);
                    }
                }
                assert forall|k: int, a: int|
                    0 <= k < out.len() && i + 1 <= a < left.len() implies entry_le(
                    #[trigger] out@[k],
                    #[trigger] left@[a],
                ) by {
                    if k == before.len() {
                        assert(entry_le(left@[i as int], left@[a]));
                    } else {
                        assert(out@[k] == before[k]);
                    }
                }
                assert forall|p: int, q: int| 0 <= p < q < out.len() implies entry_le(
                    #[trigger] out@[p],
                    #[trigger] out@[q],
                ) by {
                    if q == before.len() {
                        assert(out@[p] == before[p]);
                        assert(entry_le(before[p], left@[i as int]));
                    } else {
                        assert(out@[p] == before[p] && out@[q] == before[q]);
                    }
                }
            }
            i += 1;
        } else {
            let x = right[j];
            out.push(x);
            proof {
                assert(right@.take(j + 1) =~= right@.take(j as int).push(x));
                to_multiset_build(right@.take(j as int), x);
                to_multiset_build(before, x);
                assert(out@.to_multiset() =~= left@.take(i as int).to_multiset().add(
                    right@.take(j + 1).to_multiset(),
                ));
                assert forall|k: int, a: int|
                    0 <= k < out.len() && i <= a < left.len() implies entry_le(
                    #[trigger] out@[k],
                    #[trigger] left@[a],
                ) by {
                    if k == before.len() {
                        assert(entry_le(x, left@[i as int]));
                        assert(entry_le(left@[i as int], left@[a]));
                    } else {
                        assert(out@[k] == before[k]);
                    }
                }
                assert forall|k: int, b: int|
                    0 <= k < out.len() && j + 1 <= b < right.len() implies entry_le(
                    #[trigger] out@[k],
                    #[trigger] right@[b],
                ) by {
                    if k == before.len() {
                        assert(entry_le(right@[j as int], right@[b]));
                    } else {
                        assert(out@[k] == before[k]);
                    }
                }
                assert forall|p: int, q: int| 0 <= p < q < out.len() implies entry_le(
                    #[trigger] out@[p],
                    #[trigger] out@[q],
                ) by {
                    if q == before.len() {
                        assert(out@[p] == before[p]);
                        assert(entry_le(before[p], right@[j as int]));
                    } else {
                        assert(out@[p] == before[p] && out@[q] == before[q]);
                    }
                }
            }
            j += 1;
        }
    }
    proof {
        assert(left@.take(i as int) =~= left@);
        assert(right@.take(j as int) =~= right@);
    }
    out
}

/// An ascending copy of the entries `lo..hi` of `src`.
fn sort_range(src: &Vec<(i32, usize)>, lo: usize, hi: usize) -> (out: Vec<(i32, usize)>)
    requires
        lo <= hi <= src.len(),
    ensures
        sorted(out@),
        out.len() == hi - lo,
        out@.to_multiset() == src@.subrange(lo as int, hi as int).to_multiset(),
    decreases hi - lo,
{
    if hi - lo == 0 {
        let out: Vec<(i32, usize)> = Vec::new();
        proof {
            assert(src@.subrange(lo as int, hi as int) =~= out@);
        }
        out
    } else if hi - lo == 1 {
        let mut out: Vec<(i32, usize)> = Vec::new();
        out.push(src[lo]);
        proof {
            assert(src@.subrange(lo as int, hi as int) =~= out@);
        }
        out
    } else {
        let mid = lo + (hi - lo) / 2;
        let left = sort_range(src, lo, mid);
        let right = sort_range(src, mid, hi);
        let out = merge(&left, &right);
        proof {
            let a = src@.subrange(lo as int, mid as int);
            let b = src@.subrange(mid as int, hi as int);
            assert(src@.subrange(lo as int, hi as int) =~= a + b);
            lemma_multiset_commutative(a, b);
        }
        out
    }
}

/// An ascending arrangement of `entries`: it holds each entry as often as
/// `entries` does, and every entry stands before those greater than it.
pub fn sort_entries(entries: &Vec<(i32, usize)>) -> (out: Vec<(i32, usize)>)
    ensures
        sorted(out@),
        out.len() == entries.len(),
        out@.to_multiset() == entries@.to_multiset(),
{
    let out = sort_range(entries, 0, entries.len());
    proof {
        assert(entries@.subrange(0, entries.len() as int) =~= entries@);
    }
    out
}

} // verus!
