//! Which order statistics a percentile reads, for the
//! `averaged_inverted_cdf` (Hyndman–Fan type 2) and `linear` (type 7)
//! methods.
//!
//! A percentile `q` of a column of `n` values sets a virtual index
//! (`h = n·q/100` for type 2, `h = (n-1)·q/100` for type 7). The caller
//! computes `h`, its floor and whether its fractional part is zero; the
//! functions here decide from those integers which order statistics make the
//! result, and read them from a sorted column or select them from an
//! unsorted one.

use vstd::prelude::*;
use crate::binary64::order_key;
use crate::order::{
    fold_min, nan_free, select_kth, sorted_copy, sorted_total,
    lemma_select_next_is_next_order_statistic,
};

verus! {

/// The order statistics (0-based, in the total order) that make a
/// percentile.
#[derive(Clone, Copy, Debug, PartialEq, Eq, Structural)]
pub enum Pick {
    /// The `k`-th order statistic itself.
    Single(usize),
    /// The mean of the `k`-th and `(k+1)`-th order statistics.
    Midpoint(usize),
    /// The `k`-th order statistic moved towards the `(k+1)`-th by the
    /// fractional part of the virtual index.
    Lerp(usize),
}

/// Every order statistic that `p` reads exists in a column of `n` values.
pub open spec fn pick_in_range(p: Pick, n: nat) -> bool {
    match p {
        Pick::Single(k) => k < n,
        Pick::Midpoint(k) => k + 1 < n,
        Pick::Lerp(k) => k + 1 < n,
    }
}

/// Type 2 (`averaged_inverted_cdf`): `j` is the floor of `h = n·p` and
/// `exact` says whether `h == j`. An exact `h` strictly inside `(0, n)`
/// averages the `(j-1)`-th and `j`-th order statistics; `h == 0` gives the
/// minimum, `h >= n` the maximum; a fractional `h` gives the `j`-th (the
/// maximum once `j >= n`).
pub open spec fn spec_aicdf_pick(n: usize, j: usize, exact: bool) -> Pick {
    if exact {
        if j == 0 {
            Pick::Single(0)
        } else if j >= n {
            Pick::Single((n - 1) as usize)
        } else {
            Pick::Midpoint((j - 1) as usize)
        }
    } else if j >= n {
        Pick::Single((n - 1) as usize)
    } else {
        Pick::Single(j)
    }
}

/// Type 7 (`linear`): `lo` is the floor of `h = (n-1)·p`. Once `lo + 1`
/// reaches `n` the maximum is returned; otherwise the result interpolates
/// from the `lo`-th to the `(lo+1)`-th order statistic.
pub open spec fn spec_linear_pick(n: usize, lo: usize) -> Pick {
    if lo + 1 >= n {
        Pick::Single((n - 1) as usize)
    } else {
        Pick::Lerp(lo)
    }
}

/// The operands that `p` reads from a sorted column: the same order
/// statistic twice for `Single`, the `k`-th and `(k+1)`-th otherwise.
pub open spec fn spec_pick_operands(sorted: Seq<u64>, p: Pick) -> (u64, u64) {
    match p {
        Pick::Single(k) => (sorted[k as int], sorted[k as int]),
        Pick::Midpoint(k) => (sorted[k as int], sorted[k + 1]),
        Pick::Lerp(k) => (sorted[k as int], sorted[k + 1]),
    }
}

/// The operands that `p` reads by selection from an unsorted column: the
/// `k`-th order statistic and, for two-operand picks, the minimum of the
/// values ranked after it.
pub open spec fn spec_select_operands(xs: Seq<u64>, p: Pick) -> (u64, u64) {
    match p {
        Pick::Single(k) => (sorted_copy(xs)[k as int], sorted_copy(xs)[k as int]),
        Pick::Midpoint(k) => (
            sorted_copy(xs)[k as int],
            fold_min(sorted_copy(xs).subrange(k + 1, xs.len() as int)),
        ),
        Pick::Lerp(k) => (
            sorted_copy(xs)[k as int],
            fold_min(sorted_copy(xs).subrange(k + 1, xs.len() as int)),
        ),
    }
}

/// The type 2 pick for a column of `n > 0` values.
pub fn aicdf_pick(n: usize, j: usize, exact: bool) -> (p: Pick)
    requires
        n > 0,
    ensures
        p == spec_aicdf_pick(n, j, exact),
        pick_in_range(p, n as nat),
        p is Midpoint <==> (exact && 0 < j < n),
        !(p is Lerp),
        pick_low(p) == clamp_index(if exact { j - 1 } else { j as int }, n as int),
        pick_high(p) == clamp_index(j as int, n as int),
{
    if exact {
        if j == 0 {
            Pick::Single(0)
        } else if j >= n {
            Pick::Single(n - 1)
        } else {
            Pick::Midpoint(j - 1)
        }
    } else if j >= n {
        Pick::Single(n - 1)
    } else {
        Pick::Single(j)
    }
}

/// The type 7 pick for a column of `n > 0` values.
pub fn linear_pick(n: usize, lo: usize) -> (p: Pick)
    requires
        n > 0,
        lo < usize::MAX,
    ensures
        p == spec_linear_pick(n, lo),
        pick_in_range(p, n as nat),
        p is Lerp <==> lo + 1 < n,
        !(p is Midpoint),
        pick_low(p) == clamp_index(lo as int, n as int),
        pick_high(p) == clamp_index(lo + 1, n as int),
{
    if lo + 1 >= n {
        Pick::Single(n - 1)
    } else {
        Pick::Lerp(lo)
    }
}

/// Reads the operands of `p` from a column already sorted by the total
/// order.
pub fn pick_operands(sorted: &Vec<u64>, p: Pick) -> (r: (u64, u64))
    requires
        pick_in_range(p, sorted.len() as nat),
    ensures
        r == spec_pick_operands(sorted@, p),
{
    match p {
        Pick::Single(k) => (sorted[k], sorted[k]),
        Pick::Midpoint(k) => (sorted[k], sorted[k + 1]),
        Pick::Lerp(k) => (sorted[k], sorted[k + 1]),
    }
}

/// Selects the operands of `p` from an unsorted column, reordering the
/// column in place as `select_kth` does.
pub fn select_operands(xs: &mut Vec<u64>, p: Pick) -> (r: (u64, u64))
    requires
        pick_in_range(p, old(xs).len() as nat),
    ensures
        r == spec_select_operands(old(xs)@, p),
        final(xs)@ == sorted_copy(old(xs)@),
        final(xs)@.to_multiset() == old(xs)@.to_multiset(),
{
    match p {
        Pick::Single(k) => select_kth(xs, k, false),
        Pick::Midpoint(k) => select_kth(xs, k, true),
        Pick::Lerp(k) => select_kth(xs, k, true),
    }
}

/// Selecting from an unsorted NaN-free column reads the same operands as
/// indexing its sorted copy, so the one-level and many-level percentile
/// routines agree.
pub proof fn lemma_select_matches_sorted(xs: Seq<u64>, p: Pick)
    requires
        nan_free(xs),
        pick_in_range(p, xs.len()),
    ensures
        spec_select_operands(xs, p) == spec_pick_operands(sorted_copy(xs), p),
{
    match p {
        Pick::Single(k) => {},
        Pick::Midpoint(k) => {
            lemma_select_next_is_next_order_statistic(xs, k as int);
        },
        Pick::Lerp(k) => {
            lemma_select_next_is_next_order_statistic(xs, k as int);
        },
    }
}

/// The type 2 percentile at level 0 (`h == 0`) is the minimum and at level
/// 100 (`h == n`) the maximum.
pub proof fn lemma_aicdf_extremes(n: usize)
    requires
        n > 0,
    ensures
        spec_aicdf_pick(n, 0, true) == Pick::Single(0),
        spec_aicdf_pick(n, n, true) == Pick::Single((n - 1) as usize),
{
}

/// The type 7 percentile at level 100 (`lo == n - 1`) is the maximum.
pub proof fn lemma_linear_top(n: usize)
    requires
        n > 0,
    ensures
        spec_linear_pick(n, (n - 1) as usize) == Pick::Single((n - 1) as usize),
{
}

/// The lower order statistic a pick reads.
pub open spec fn pick_low(p: Pick) -> int {
    match p {
        Pick::Single(k) => k as int,
        Pick::Midpoint(k) => k as int,
        Pick::Lerp(k) => k as int,
    }
}

/// The higher order statistic a pick reads.
pub open spec fn pick_high(p: Pick) -> int {
    match p {
        Pick::Single(k) => k as int,
        Pick::Midpoint(k) => k + 1,
        Pick::Lerp(k) => k + 1,
    }
}

/// The virtual index with floor `j1` (exactly `j1` when `exact1`, else
/// strictly between `j1` and `j1 + 1`) is at most the one with floor `j2`.
pub open spec fn position_le(j1: usize, exact1: bool, j2: usize, exact2: bool) -> bool {
    j1 < j2 || (j1 == j2 && (exact1 || !exact2))
}

/// Type 2 picks read nondecreasing order statistics as the level rises.
pub proof fn lemma_aicdf_pick_monotone(n: usize, j1: usize, exact1: bool, j2: usize, exact2: bool)
    requires
        n > 0,
        position_le(j1, exact1, j2, exact2),
    ensures
        pick_low(spec_aicdf_pick(n, j1, exact1)) <= pick_low(spec_aicdf_pick(n, j2, exact2)),
        pick_high(spec_aicdf_pick(n, j1, exact1)) <= pick_high(spec_aicdf_pick(n, j2, exact2)),
{
}

/// Type 7 picks read nondecreasing order statistics as the level rises.
pub proof fn lemma_linear_pick_monotone(n: usize, lo1: usize, lo2: usize)
    requires
        n > 0,
        lo1 <= lo2 < usize::MAX,
    ensures
        pick_low(spec_linear_pick(n, lo1)) <= pick_low(spec_linear_pick(n, lo2)),
        pick_high(spec_linear_pick(n, lo1)) <= pick_high(spec_linear_pick(n, lo2)),
{
}

/// On a sorted column, picks that read nondecreasing order statistics read
/// operands that are nondecreasing in the total order; so raw quantile
/// edges ascend with the level as far as the order statistics go.
pub proof fn lemma_pick_operands_monotone(sorted: Seq<u64>, p1: Pick, p2: Pick)
    requires
        sorted_total(sorted),
        pick_in_range(p1, sorted.len()),
        pick_in_range(p2, sorted.len()),
        pick_low(p1) <= pick_low(p2),
        pick_high(p1) <= pick_high(p2),
    ensures
        order_key(spec_pick_operands(sorted, p1).0) <= order_key(spec_pick_operands(sorted, p2).0),
        order_key(spec_pick_operands(sorted, p1).1) <= order_key(spec_pick_operands(sorted, p2).1),
{
    assert(spec_pick_operands(sorted, p1).0 == sorted[pick_low(p1)]);
    assert(spec_pick_operands(sorted, p2).0 == sorted[pick_low(p2)]);
    assert(spec_pick_operands(sorted, p1).1 == sorted[pick_high(p1)]);
    assert(spec_pick_operands(sorted, p2).1 == sorted[pick_high(p2)]);
}

/// `x` moved into the index range `0..n`.
pub open spec fn clamp_index(x: int, n: int) -> int {
    if x < 0 {
        0
    } else if x > n - 1 {
        n - 1
    } else {
        x
    }
}

/// What a type 2 percentile reads, in terms of its virtual index `h` (floor
/// `j`, exact when `exact`): the order statistics `ceil(h) - 1` and
/// `floor(h)`, each moved into `0..n`, averaged exactly when `h` is an
/// integer strictly inside `(0, n)`; in particular an exact interior `h == j`
/// averages order statistics `j - 1` and `j`. It never interpolates.
pub proof fn lemma_aicdf_pick_reads(n: usize, j: usize, exact: bool)
    requires
        n > 0,
    ensures
        spec_aicdf_pick(n, j, exact) is Midpoint <==> (exact && 0 < j < n),
        !(spec_aicdf_pick(n, j, exact) is Lerp),
        pick_low(spec_aicdf_pick(n, j, exact)) == clamp_index(if exact { j - 1 } else { j as int }, n as int),
        pick_high(spec_aicdf_pick(n, j, exact)) == clamp_index(j as int, n as int),
        (exact && 0 < j < n) ==> spec_aicdf_pick(n, j, exact) == Pick::Midpoint((j - 1) as usize),
{
}

/// What a type 7 percentile reads, in terms of the floor `lo` of its
/// virtual index: order statistics `lo` and `lo + 1`, moved into `0..n`,
/// interpolated exactly when both exist; so for every `lo + 1 < n` it is
/// the interpolation between order statistics `lo` and `lo + 1`.
pub proof fn lemma_linear_pick_reads(n: usize, lo: usize)
    requires
        n > 0,
        lo < usize::MAX,
    ensures
        spec_linear_pick(n, lo) is Lerp <==> lo + 1 < n,
        !(spec_linear_pick(n, lo) is Midpoint),
        pick_low(spec_linear_pick(n, lo)) == clamp_index(lo as int, n as int),
        pick_high(spec_linear_pick(n, lo)) == clamp_index(lo + 1, n as int),
        lo + 1 < n ==> spec_linear_pick(n, lo) == Pick::Lerp(lo),
{
}

} // verus!
