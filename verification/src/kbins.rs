//! Fitting per-column bin edges and encoding values as bin codes.
//!
//! Bin edges are binary64 encodings. The arithmetic that makes new edges
//! (evenly spaced edges, percentile interpolation) and the width test that
//! decides whether two neighbouring edges are distinct are supplied by the
//! caller; everything else about a column (its extraction from the matrix,
//! its range, constant columns, the removal of near-duplicate edges, and the
//! mapping of values to bins) is done here.

use vstd::prelude::*;
use crate::binary64::{
    INFINITY, NEG_INFINITY, spec_eq, spec_is_nan, spec_le, numeric_key, eq, le,
};
use crate::order::{
    fold_max, fold_min, max_of, min_of, nan_free, sorted_copy, lemma_fold_max_bounds,
    lemma_fold_min_bounds, lemma_sorted_copy,
};

verus! {

/// Bin strategy.
#[derive(Clone, Copy, Debug, PartialEq, Eq, Structural)]
pub enum Strategy {
    /// Equal-width bins between the column minimum and maximum.
    Uniform,
    /// Equal-frequency bins at evenly spaced percentiles.
    Quantile,
}

/// Percentile method for the `Quantile` strategy.
#[derive(Clone, Copy, Debug, PartialEq, Eq, Structural)]
pub enum QuantileMethod {
    /// `averaged_inverted_cdf` (Hyndman–Fan type 2).
    AveragedInvertedCdf,
    /// `linear` (Hyndman–Fan type 7).
    Linear,
}

/// Fitted per-column bin edges.
pub struct Fitted {
    /// Per-column effective number of bins (fewer than requested when edges
    /// collapse).
    pub n_bins: Vec<usize>,
    /// Per-column bin edges, both outer fences included.
    pub bin_edges: Vec<Vec<u64>>,
}

impl Fitted {
    /// Every column has one more edge than it has bins.
    pub open spec fn wf(&self) -> bool {
        &&& self.n_bins.len() == self.bin_edges.len()
        &&& forall|j: int|
            0 <= j < self.n_bins.len() ==> #[trigger] self.bin_edges@[j].len() == self.n_bins@[j]
                + 1
    }

    /// No columns yet.
    pub fn new() -> (f: Fitted)
        ensures
            f.n_bins@ == Seq::<usize>::empty(),
            f.bin_edges@ == Seq::<Vec<u64>>::empty(),
            f.wf(),
    {
        Fitted { n_bins: Vec::new(), bin_edges: Vec::new() }
    }

    /// Appends a column with the given edges; its bin count is one less
    /// than its edge count.
    pub fn push_column(&mut self, edges: Vec<u64>)
        requires
            edges.len() >= 1,
        ensures
            final(self).n_bins@ == old(self).n_bins@.push((edges.len() - 1) as usize),
            final(self).bin_edges@ == old(self).bin_edges@.push(edges),
            old(self).wf() ==> final(self).wf(),
    {
        let nb = edges.len() - 1;
        self.n_bins.push(nb);
        self.bin_edges.push(edges);
        proof {
            if old(self).wf() {
                assert forall|j: int| 0 <= j < self.n_bins.len() implies #[trigger] self.bin_edges@[j].len()
                    == self.n_bins@[j] + 1 by {
                    if j < old(self).n_bins.len() {
                        assert(self.bin_edges@[j] == old(self).bin_edges@[j]);
                    }
                }
            }
        }
    }
}

/// Column `j` of a row-major matrix with `n_cols` columns: its first
/// `n_rows` entries.
pub open spec fn spec_column(data: Seq<u64>, n_rows: nat, n_cols: nat, j: nat) -> Seq<u64> {
    Seq::new(n_rows, |i: int| data[i * n_cols + j])
}

/// Copies column `j` out of a row-major `n_rows × n_cols` matrix.
pub fn extract_column(data: &Vec<u64>, n_rows: usize, n_cols: usize, j: usize) -> (col: Vec<u64>)
    requires
        j < n_cols,
        n_rows * n_cols <= data.len(),
    ensures
        col@ == spec_column(data@, n_rows as nat, n_cols as nat, j as nat),
{
    let mut col: Vec<u64> = Vec::new();
    let mut i: usize = 0;
    while i < n_rows
        invariant
            i <= n_rows,
            j < n_cols,
            n_rows * n_cols <= data.len(),
            col@ =~= spec_column(data@, i as nat, n_cols as nat, j as nat),
        decreases n_rows - i,
    {
        assert(i * n_cols + j < n_rows * n_cols) by (nonlinear_arith)
            requires
                i < n_rows,
                j < n_cols,
        ;
        col.push(data[i * n_cols + j]);
        i = i + 1;
    }
    col
}

/// How a column is binned: a constant column gets a single unbounded bin;
/// any other column is spread between its minimum and maximum.
#[derive(Clone, Copy, Debug, PartialEq, Eq, Structural)]
pub enum ColumnRange {
    /// The minimum equals the maximum.
    Constant,
    /// The minimum and maximum differ (or the column has no non-NaN value,
    /// when they are `+inf` and `-inf`).
    Spread { min: u64, max: u64 },
}

/// The range of a column: its minimum and maximum as folding `min` and `max`
/// compute them (NaNs skipped), compared with IEEE `==`.
pub open spec fn spec_column_range(col: Seq<u64>) -> ColumnRange {
    if spec_eq(fold_min(col), fold_max(col)) {
        ColumnRange::Constant
    } else {
        ColumnRange::Spread { min: fold_min(col), max: fold_max(col) }
    }
}

/// The range of a column.
pub fn column_range(col: &Vec<u64>) -> (r: ColumnRange)
    ensures
        r == spec_column_range(col@),
{
    let lo = min_of(col);
    let hi = max_of(col);
    if eq(lo, hi) {
        ColumnRange::Constant
    } else {
        ColumnRange::Spread { min: lo, max: hi }
    }
}

/// A column with at least one non-NaN value is constant exactly when all
/// its non-NaN values are equal.
pub proof fn lemma_constant_iff_all_equal(col: Seq<u64>)
    requires
        exists|i: int| 0 <= i < col.len() && !spec_is_nan(#[trigger] col[i]),
    ensures
        spec_column_range(col) == ColumnRange::Constant <==> forall|i: int, k: int|
            0 <= i < col.len() && 0 <= k < col.len() && !spec_is_nan(col[i]) && !spec_is_nan(
                col[k],
            ) ==> spec_eq(#[trigger] col[i], #[trigger] col[k]),
{
    lemma_fold_min_bounds(col);
    lemma_fold_max_bounds(col);
    let x = choose|i: int| 0 <= i < col.len() && !spec_is_nan(#[trigger] col[i]);
    let lo = fold_min(col);
    let hi = fold_max(col);
    assert(spec_le(lo, col[x]) && spec_le(col[x], hi));
    if forall|i: int, k: int|
        0 <= i < col.len() && 0 <= k < col.len() && !spec_is_nan(col[i]) && !spec_is_nan(col[k])
            ==> spec_eq(#[trigger] col[i], #[trigger] col[k]) {
        if lo != INFINITY {
            let a = choose|a: int| 0 <= a < col.len() && col[a] == lo;
            assert(spec_eq(col[a], col[x]));
        }
        if hi != NEG_INFINITY {
            let b = choose|b: int| 0 <= b < col.len() && col[b] == hi;
            assert(spec_eq(col[b], col[x]));
        }
        assert(numeric_key(lo) == numeric_key(hi));
    }
}

/// Row order does not matter to a column's range: two NaN-free columns with
/// the same values in any order are both constant or both spread, have
/// numerically equal minima and maxima (they can differ only in the sign of
/// a zero), and have the same sorted copy.
pub proof fn lemma_column_range_order_free(c1: Seq<u64>, c2: Seq<u64>)
    requires
        c1.to_multiset() == c2.to_multiset(),
        nan_free(c1),
    ensures
        nan_free(c2),
        numeric_key(fold_min(c1)) == numeric_key(fold_min(c2)),
        numeric_key(fold_max(c1)) == numeric_key(fold_max(c2)),
        (spec_column_range(c1) == ColumnRange::Constant) == (spec_column_range(c2)
            == ColumnRange::Constant),
        sorted_copy(c1) == sorted_copy(c2),
{
    broadcast use vstd::seq_lib::group_to_multiset_ensures;

    assert forall|i: int| 0 <= i < c2.len() implies !spec_is_nan(#[trigger] c2[i]) by {
        assert(c2.contains(c2[i]));
        assert(c2.to_multiset().count(c2[i]) > 0);
        assert(c1.to_multiset().count(c2[i]) > 0);
        assert(c1.contains(c2[i]));
        let k = choose|k: int| 0 <= k < c1.len() && c1[k] == c2[i];
        assert(!spec_is_nan(c1[k]));
    }
    lemma_fold_min_bounds(c1);
    lemma_fold_min_bounds(c2);
    lemma_fold_max_bounds(c1);
    lemma_fold_max_bounds(c2);
    let a1 = fold_min(c1);
    let a2 = fold_min(c2);
    if a1 != INFINITY {
        assert(c1.contains(a1));
        assert(c1.to_multiset().count(a1) > 0);
        assert(c2.contains(a1));
        let m = choose|m: int| 0 <= m < c2.len() && c2[m] == a1;
        assert(spec_le(a2, c2[m]));
    }
    if a2 != INFINITY {
        assert(c2.to_multiset().count(a2) > 0);
        assert(c1.contains(a2));
        let m = choose|m: int| 0 <= m < c1.len() && c1[m] == a2;
        assert(spec_le(a1, c1[m]));
    }
    let b1 = fold_max(c1);
    let b2 = fold_max(c2);
    if b1 != NEG_INFINITY {
        assert(c1.to_multiset().count(b1) > 0);
        assert(c2.contains(b1));
        let m = choose|m: int| 0 <= m < c2.len() && c2[m] == b1;
        assert(spec_le(c2[m], b2));
    }
    if b2 != NEG_INFINITY {
        assert(c2.to_multiset().count(b2) > 0);
        assert(c1.contains(b2));
        let m = choose|m: int| 0 <= m < c1.len() && c1[m] == b2;
        assert(spec_le(c1[m], b1));
    }
    lemma_sorted_copy(c1, sorted_copy(c2));
    lemma_sorted_copy(c2, c2);
}

/// `perm` is a permutation of `0..n`.
pub open spec fn is_permutation(perm: Seq<int>, n: int) -> bool {
    &&& perm.len() == n
    &&& forall|i: int| 0 <= i < n ==> 0 <= #[trigger] perm[i] < n
    &&& forall|i: int, k: int| 0 <= i < k < n ==> #[trigger] perm[i] != #[trigger] perm[k]
}

/// Rearranging a sequence by a permutation keeps its elements.
pub proof fn lemma_permuted_same_elements(s1: Seq<u64>, s2: Seq<u64>, perm: Seq<int>)
    requires
        s1.len() == s2.len(),
        is_permutation(perm, s1.len() as int),
        forall|i: int| 0 <= i < s2.len() ==> #[trigger] s2[i] == s1[perm[i]],
    ensures
        s1.to_multiset() == s2.to_multiset(),
    decreases s1.len(),
{
    broadcast use vstd::seq_lib::group_to_multiset_ensures;

    let n = s1.len() as int;
    if n > 0 {
        let p = perm[n - 1];
        let x = s2[n - 1];
        let t1 = s1.remove(p);
        let t2 = s2.drop_last();
        let q = Seq::new((n - 1) as nat, |i: int| if perm[i] > p { perm[i] - 1 } else { perm[i] });
        assert forall|i: int| 0 <= i < n - 1 implies 0 <= #[trigger] q[i] < n - 1 by {
            assert(perm[i] != perm[n - 1]);
        }
        assert forall|i: int, k: int| 0 <= i < k < n - 1 implies #[trigger] q[i] != #[trigger] q[k] by {
            assert(perm[i] != perm[k]);
            assert(perm[i] != p && perm[k] != p);
        }
        assert forall|i: int| 0 <= i < t2.len() implies #[trigger] t2[i] == t1[q[i]] by {
            assert(perm[i] != p);
            assert(t2[i] == s2[i]);
        }
        lemma_permuted_same_elements(t1, t2, q);
        assert(s2 =~= t2.push(x));
        assert(s1.to_multiset().count(x) > 0) by {
            assert(s1.contains(x));
        }
        assert(t1.to_multiset() == s1.to_multiset().remove(s1[p]));
        assert(s1.to_multiset() =~= t1.to_multiset().insert(x));
    }
}

/// The rows of `d2` are the rows of `d1` in the order `perm`: row `i` of
/// `d2` is row `perm[i]` of `d1`.
pub open spec fn rows_reordered(d1: Seq<u64>, d2: Seq<u64>, n_rows: nat, n_cols: nat, perm: Seq<int>) -> bool {
    &&& is_permutation(perm, n_rows as int)
    &&& forall|i: int, j: int|
        0 <= i < n_rows && 0 <= j < n_cols ==> #[trigger] d2[i * n_cols + j] == d1[perm[i] * n_cols + j]
}

/// Row order does not matter to what a column's fit is made from: after
/// reordering the rows of a matrix, every NaN-free column is still constant
/// or spread as before, with numerically equal minimum and maximum and the
/// same sorted copy (the input of the percentiles).
pub proof fn lemma_fit_inputs_row_order_free(
    d1: Seq<u64>,
    d2: Seq<u64>,
    n_rows: nat,
    n_cols: nat,
    perm: Seq<int>,
    j: nat,
)
    requires
        j < n_cols,
        rows_reordered(d1, d2, n_rows, n_cols, perm),
        nan_free(spec_column(d1, n_rows, n_cols, j)),
    ensures
        spec_column(d1, n_rows, n_cols, j).to_multiset() == spec_column(d2, n_rows, n_cols, j).to_multiset(),
        (spec_column_range(spec_column(d1, n_rows, n_cols, j)) == ColumnRange::Constant)
            == (spec_column_range(spec_column(d2, n_rows, n_cols, j)) == ColumnRange::Constant),
        numeric_key(fold_min(spec_column(d1, n_rows, n_cols, j))) == numeric_key(
            fold_min(spec_column(d2, n_rows, n_cols, j)),
        ),
        numeric_key(fold_max(spec_column(d1, n_rows, n_cols, j))) == numeric_key(
            fold_max(spec_column(d2, n_rows, n_cols, j)),
        ),
        sorted_copy(spec_column(d1, n_rows, n_cols, j)) == sorted_copy(spec_column(d2, n_rows, n_cols, j)),
{
    let c1 = spec_column(d1, n_rows, n_cols, j);
    let c2 = spec_column(d2, n_rows, n_cols, j);
    assert forall|i: int| 0 <= i < c2.len() implies #[trigger] c2[i] == c1[perm[i]] by {
        assert(d2[i * n_cols + j] == d1[perm[i] * n_cols + j]);
    }
    lemma_permuted_same_elements(c1, c2, perm);
    lemma_column_range_order_free(c1, c2);
}

/// The edges of a constant column: a single bin spanning `(-inf, +inf)`.
pub fn constant_column_edges() -> (edges: Vec<u64>)
    ensures
        edges@ == seq![NEG_INFINITY, INFINITY],
{
    let mut edges: Vec<u64> = Vec::new();
    edges.push(NEG_INFINITY);
    edges.push(INFINITY);
    edges
}

/// The elements of `raw` whose flag in `keep` is set, in order.
pub open spec fn kept(raw: Seq<u64>, keep: Seq<bool>) -> Seq<u64>
    decreases raw.len(),
{
    if raw.len() == 0 || keep.len() == 0 {
        Seq::empty()
    } else {
        let rest = kept(raw.drop_last(), keep.drop_last());
        if keep.last() {
            rest.push(raw.last())
        } else {
            rest
        }
    }
}

/// `keep` records a run of the duplicate-edge filter over `raw`: the first
/// edge is kept, and each later edge is kept exactly when the width test,
/// asked about the raw edge before it and this one, answered yes.
pub open spec fn dedup_run<F: Fn(u64, u64) -> bool>(
    raw: Seq<u64>,
    keep: Seq<bool>,
    gap_exceeds: F,
) -> bool {
    &&& keep.len() == raw.len()
    &&& raw.len() > 0 ==> keep[0]
    &&& forall|i: int|
        1 <= i < raw.len() ==> gap_exceeds.ensures((raw[i - 1], #[trigger] raw[i]), keep[i])
}

proof fn lemma_kept_len(raw: Seq<u64>, keep: Seq<bool>)
    requires
        raw.len() == keep.len(),
    ensures
        kept(raw, keep).len() <= raw.len(),
        raw.len() > 0 && keep[0] ==> kept(raw, keep).len() >= 1 && kept(raw, keep)[0] == raw[0],
    decreases raw.len(),
{
    if raw.len() > 0 {
        lemma_kept_len(raw.drop_last(), keep.drop_last());
        if raw.len() == 1 {
            assert(raw.drop_last().len() == 0);
        }
    }
}

/// Removes edges that are too close to their predecessor: the first edge is
/// always kept; each later edge `raw[i]` is kept when
/// `gap_exceeds(raw[i - 1], raw[i])` holds, comparing consecutive raw edges
/// whether or not the earlier one was kept.
pub fn dedup_edges<F: Fn(u64, u64) -> bool>(raw: &Vec<u64>, gap_exceeds: F) -> (out: Vec<u64>)
    requires
        forall|a: u64, b: u64| gap_exceeds.requires((a, b)),
    ensures
        exists|keep: Seq<bool>| dedup_run(raw@, keep, gap_exceeds) && out@ == kept(raw@, keep),
        exists|flags: Seq<bool>|
            #![trigger kept(raw@, flags)]
            flags.len() == raw.len() && (raw.len() > 0 ==> flags[0]) && (forall|i: int|
                1 <= i < raw.len() ==> gap_exceeds.ensures((#[trigger] raw@[i - 1], raw@[i]), flags[i]))
                && out@ == kept(raw@, flags),
        out.len() <= raw.len(),
        raw.len() > 0 ==> out.len() >= 1 && out@[0] == raw@[0],
{
    let mut out: Vec<u64> = Vec::new();
    let ghost mut keep: Seq<bool> = Seq::empty();
    let mut i: usize = 0;
    while i < raw.len()
        invariant
            i <= raw.len(),
            forall|a: u64, b: u64| gap_exceeds.requires((a, b)),
            keep.len() == i,
            i > 0 ==> keep[0],
            out@ == kept(raw@.take(i as int), keep),
            forall|m: int|
                1 <= m < i ==> gap_exceeds.ensures((raw@[m - 1], #[trigger] raw@[m]), keep[m]),
        decreases raw.len() - i,
    {
        let e = raw[i];
        let take = if i == 0 {
            true
        } else {
            gap_exceeds(raw[i - 1], e)
        };
        if take {
            out.push(e);
        }
        let ghost old_keep = keep;
        proof {
            keep = keep.push(take);
            assert(raw@.take(i + 1).drop_last() =~= raw@.take(i as int));
            assert(keep.drop_last() =~= old_keep);
        }
        i = i + 1;
    }
    proof {
        assert(raw@.take(raw.len() as int) =~= raw@);
        lemma_kept_len(raw@, keep);
        assert(out@ == kept(raw@, keep));
    }
    out
}

/// `edges` are the fitted edges of column `col` for `n_bins` requested bins:
/// the constant fences for a constant column; otherwise, for `Uniform`, the
/// `n_bins + 1` evenly spaced values that `uniform_edges` made between the
/// column's minimum and maximum, and for `Quantile`, the percentiles at
/// `n_bins + 1` evenly spaced levels that `quantile_edges` made from the
/// column, with near-duplicates removed by `dedup_edges`' rule.
pub open spec fn column_fitted<U, Q, G>(
    col: Seq<u64>,
    n_bins: usize,
    strategy: Strategy,
    quantile_method: QuantileMethod,
    uniform_edges: U,
    quantile_edges: Q,
    gap_exceeds: G,
    edges: Vec<u64>,
) -> bool where
    U: Fn(u64, u64, usize) -> Vec<u64>,
    Q: Fn(&Vec<u64>, usize, QuantileMethod) -> Vec<u64>,
    G: Fn(u64, u64) -> bool,
 {
    match spec_column_range(col) {
        ColumnRange::Constant => edges@ == seq![NEG_INFINITY, INFINITY],
        ColumnRange::Spread { min, max } => match strategy {
            Strategy::Uniform => uniform_edges.ensures((min, max, (n_bins + 1) as usize), edges),
            Strategy::Quantile => exists|c: Vec<u64>, raw: Vec<u64>, keep: Seq<bool>|
                c@ == col && #[trigger] quantile_edges.ensures(
                    (&c, (n_bins + 1) as usize, quantile_method),
                    raw,
                ) && #[trigger] dedup_run(raw@, keep, gap_exceeds) && edges@ == kept(raw@, keep),
        },
    }
}

/// Fits bin edges for every column of a row-major `n_rows × n_cols` matrix.
/// Each column is extracted and its range decides: a constant column gets a
/// single bin spanning `(-inf, +inf)`; otherwise the strategy decides
/// between `uniform_edges(min, max, n_bins + 1)` and
/// `quantile_edges(column, n_bins + 1, quantile_method)` followed by
/// `dedup_edges` with `gap_exceeds`. Every column gets one bin fewer than
/// edges, and never more bins than requested.
pub fn fit<U, Q, G>(
    data: &Vec<u64>,
    n_rows: usize,
    n_cols: usize,
    n_bins: usize,
    strategy: Strategy,
    quantile_method: QuantileMethod,
    uniform_edges: U,
    quantile_edges: Q,
    gap_exceeds: G,
) -> (fitted: Fitted) where
    U: Fn(u64, u64, usize) -> Vec<u64>,
    Q: Fn(&Vec<u64>, usize, QuantileMethod) -> Vec<u64>,
    G: Fn(u64, u64) -> bool + Copy,

    requires
        n_bins >= 2,
        n_bins < usize::MAX,
        n_rows * n_cols <= data.len(),
        forall|lo: u64, hi: u64, num: usize| uniform_edges.requires((lo, hi, num)),
        forall|c: &Vec<u64>, num: usize, m: QuantileMethod| quantile_edges.requires((c, num, m)),
        forall|a: u64, b: u64| gap_exceeds.requires((a, b)),
        forall|lo: u64, hi: u64, num: usize, e: Vec<u64>|
            #[trigger] uniform_edges.ensures((lo, hi, num), e) ==> e.len() == num,
        forall|c: &Vec<u64>, num: usize, m: QuantileMethod, e: Vec<u64>|
            #[trigger] quantile_edges.ensures((c, num, m), e) ==> e.len() == num,
    ensures
        fitted.wf(),
        fitted.n_bins.len() == n_cols,
        forall|j: int| 0 <= j < n_cols ==> 1 <= #[trigger] fitted.bin_edges@[j].len() <= n_bins + 1,
        forall|j: int| 0 <= j < n_cols ==> #[trigger] fitted.n_bins@[j] <= n_bins,
        forall|j: int|
            0 <= j < n_cols ==> column_fitted(
                spec_column(data@, n_rows as nat, n_cols as nat, j as nat),
                n_bins,
                strategy,
                quantile_method,
                uniform_edges,
                quantile_edges,
                gap_exceeds,
                #[trigger] fitted.bin_edges@[j],
            ),
        forall|j: int|
            #![trigger fitted.bin_edges@[j]]
            0 <= j < n_cols && spec_eq(
                fold_min(spec_column(data@, n_rows as nat, n_cols as nat, j as nat)),
                fold_max(spec_column(data@, n_rows as nat, n_cols as nat, j as nat)),
            ) ==> fitted.bin_edges@[j]@ == seq![NEG_INFINITY, INFINITY] && fitted.n_bins@[j] == 1,
        forall|j: int|
            #![trigger fitted.bin_edges@[j]]
            0 <= j < n_cols && strategy == Strategy::Uniform && !spec_eq(
                fold_min(spec_column(data@, n_rows as nat, n_cols as nat, j as nat)),
                fold_max(spec_column(data@, n_rows as nat, n_cols as nat, j as nat)),
            ) ==> uniform_edges.ensures(
                (
                    fold_min(spec_column(data@, n_rows as nat, n_cols as nat, j as nat)),
                    fold_max(spec_column(data@, n_rows as nat, n_cols as nat, j as nat)),
                    (n_bins + 1) as usize,
                ),
                fitted.bin_edges@[j],
            ),
        forall|j: int|
            #![trigger fitted.bin_edges@[j]]
            0 <= j < n_cols && strategy == Strategy::Quantile && !spec_eq(
                fold_min(spec_column(data@, n_rows as nat, n_cols as nat, j as nat)),
                fold_max(spec_column(data@, n_rows as nat, n_cols as nat, j as nat)),
            ) ==> made_from_requested_quantiles(
                quantile_edges,
                spec_column(data@, n_rows as nat, n_cols as nat, j as nat),
                n_bins,
                quantile_method,
                fitted.bin_edges@[j],
            ),
{
    let mut fitted = Fitted::new();
    let mut j: usize = 0;
    while j < n_cols
        invariant
            j <= n_cols,
            2 <= n_bins < usize::MAX,
            n_rows * n_cols <= data.len(),
            forall|lo: u64, hi: u64, num: usize| uniform_edges.requires((lo, hi, num)),
            forall|c: &Vec<u64>, num: usize, m: QuantileMethod| quantile_edges.requires((c, num, m)),
            forall|a: u64, b: u64| gap_exceeds.requires((a, b)),
            forall|lo: u64, hi: u64, num: usize, e: Vec<u64>|
                #[trigger] uniform_edges.ensures((lo, hi, num), e) ==> e.len() == num,
            forall|c: &Vec<u64>, num: usize, m: QuantileMethod, e: Vec<u64>|
                #[trigger] quantile_edges.ensures((c, num, m), e) ==> e.len() == num,
            fitted.wf(),
            fitted.n_bins.len() == j,
            forall|m: int| 0 <= m < j ==> 1 <= #[trigger] fitted.bin_edges@[m].len() <= n_bins + 1,
            forall|m: int|
                0 <= m < j ==> column_fitted(
                    spec_column(data@, n_rows as nat, n_cols as nat, m as nat),
                    n_bins,
                    strategy,
                    quantile_method,
                    uniform_edges,
                    quantile_edges,
                    gap_exceeds,
                    #[trigger] fitted.bin_edges@[m],
                ),
        decreases n_cols - j,
    {
        let col = extract_column(data, n_rows, n_cols, j);
        let edges = match column_range(&col) {
            ColumnRange::Constant => constant_column_edges(),
            ColumnRange::Spread { min, max } => match strategy {
                Strategy::Uniform => uniform_edges(min, max, n_bins + 1),
                Strategy::Quantile => {
                    let raw = quantile_edges(&col, n_bins + 1, quantile_method);
                    let out = dedup_edges(&raw, gap_exceeds);
                    proof {
                        let keep = choose|keep: Seq<bool>|
                            dedup_run(raw@, keep, gap_exceeds) && out@ == kept(raw@, keep);
                        assert(quantile_edges.ensures((&col, (n_bins + 1) as usize, quantile_method), raw));
                    }
                    out
                },
            },
        };
        let ghost e = edges;
        proof {
            assert(column_fitted(
                spec_column(data@, n_rows as nat, n_cols as nat, j as nat),
                n_bins,
                strategy,
                quantile_method,
                uniform_edges,
                quantile_edges,
                gap_exceeds,
                e,
            ));
        }
        let ghost prev = fitted.bin_edges@;
        fitted.push_column(edges);
        proof {
            assert(fitted.bin_edges@[j as int] == e);
            assert forall|m: int|
                0 <= m < j + 1 implies column_fitted(
                spec_column(data@, n_rows as nat, n_cols as nat, m as nat),
                n_bins,
                strategy,
                quantile_method,
                uniform_edges,
                quantile_edges,
                gap_exceeds,
                #[trigger] fitted.bin_edges@[m],
            ) && 1 <= fitted.bin_edges@[m].len() <= n_bins + 1 by {
                if m < j {
                    assert(fitted.bin_edges@[m] == prev[m]);
                }
            }
        }
        j = j + 1;
    }
    proof {
        assert forall|m: int| 0 <= m < n_cols implies #[trigger] fitted.n_bins@[m] <= n_bins by {
            assert(fitted.bin_edges@[m].len() == fitted.n_bins@[m] + 1);
            assert(1 <= fitted.bin_edges@[m].len() <= n_bins + 1);
        }
        assert forall|m: int|
            #![trigger fitted.bin_edges@[m]]
            0 <= m < n_cols implies fitted_column_facts(
            spec_column(data@, n_rows as nat, n_cols as nat, m as nat),
            n_bins,
            strategy,
            quantile_method,
            uniform_edges,
            quantile_edges,
            fitted.bin_edges@[m],
        ) && fitted.bin_edges@[m]@.len() == fitted.n_bins@[m] + 1 by {
            assert(fitted.bin_edges@[m].len() == fitted.n_bins@[m] + 1);
            lemma_column_fitted_facts(
                spec_column(data@, n_rows as nat, n_cols as nat, m as nat),
                n_bins,
                strategy,
                quantile_method,
                uniform_edges,
                quantile_edges,
                gap_exceeds,
                fitted.bin_edges@[m],
            );
        }
        assert forall|m: int|
            #![trigger fitted.bin_edges@[m]]
            0 <= m < n_cols && spec_eq(
                fold_min(spec_column(data@, n_rows as nat, n_cols as nat, m as nat)),
                fold_max(spec_column(data@, n_rows as nat, n_cols as nat, m as nat)),
            ) implies fitted.bin_edges@[m]@ == seq![NEG_INFINITY, INFINITY] && fitted.n_bins@[m] == 1 by {
            let col = spec_column(data@, n_rows as nat, n_cols as nat, m as nat);
            assert(fitted_column_facts(col, n_bins, strategy, quantile_method, uniform_edges, quantile_edges, fitted.bin_edges@[m]));
            assert(fitted.bin_edges@[m]@ == seq![NEG_INFINITY, INFINITY]);
            assert(fitted.bin_edges@[m]@.len() == 2);
        }
    }
    fitted
}

/// What a fitted column is, stated without going through the fitting
/// recipe: a column whose minimum equals its maximum gets the fences
/// `[-inf, +inf]` whatever the strategy; a spread column under `Uniform`
/// gets what `uniform_edges` made from its minimum, maximum and
/// `n_bins + 1`; a spread column under `Quantile` gets a selection of what
/// `quantile_edges` made for the requested method, starting with its first
/// edge.
pub open spec fn fitted_column_facts<U, Q>(
    col: Seq<u64>,
    n_bins: usize,
    strategy: Strategy,
    quantile_method: QuantileMethod,
    uniform_edges: U,
    quantile_edges: Q,
    edges: Vec<u64>,
) -> bool where
    U: Fn(u64, u64, usize) -> Vec<u64>,
    Q: Fn(&Vec<u64>, usize, QuantileMethod) -> Vec<u64>,
 {
    &&& spec_eq(fold_min(col), fold_max(col)) ==> edges@ == seq![NEG_INFINITY, INFINITY]
    &&& (strategy == Strategy::Uniform && !spec_eq(fold_min(col), fold_max(col)))
        ==> uniform_edges.ensures((fold_min(col), fold_max(col), (n_bins + 1) as usize), edges)
    &&& (strategy == Strategy::Quantile && !spec_eq(fold_min(col), fold_max(col)))
        ==> made_from_requested_quantiles(quantile_edges, col, n_bins, quantile_method, edges)
}

/// `edges` start with, and are no more than, the percentiles that
/// `quantile_edges` made from column `col` at `n_bins + 1` levels for
/// exactly the requested `quantile_method`.
pub open spec fn made_from_requested_quantiles<Q>(
    quantile_edges: Q,
    col: Seq<u64>,
    n_bins: usize,
    quantile_method: QuantileMethod,
    edges: Vec<u64>,
) -> bool where Q: Fn(&Vec<u64>, usize, QuantileMethod) -> Vec<u64> {
    exists|c: Vec<u64>, raw: Vec<u64>|
        #![trigger quantile_edges.ensures((&c, (n_bins + 1) as usize, quantile_method), raw)]
        c@ == col && quantile_edges.ensures((&c, (n_bins + 1) as usize, quantile_method), raw)
            && edges@.len() <= raw@.len() && edges@[0] == raw@[0]
}

/// The fitting recipe gives columns as `fitted_column_facts` describes them.
pub proof fn lemma_column_fitted_facts<U, Q, G>(
    col: Seq<u64>,
    n_bins: usize,
    strategy: Strategy,
    quantile_method: QuantileMethod,
    uniform_edges: U,
    quantile_edges: Q,
    gap_exceeds: G,
    edges: Vec<u64>,
) where
    U: Fn(u64, u64, usize) -> Vec<u64>,
    Q: Fn(&Vec<u64>, usize, QuantileMethod) -> Vec<u64>,
    G: Fn(u64, u64) -> bool,

    requires
        n_bins < usize::MAX,
        column_fitted(col, n_bins, strategy, quantile_method, uniform_edges, quantile_edges, gap_exceeds, edges),
        forall|c: &Vec<u64>, num: usize, m: QuantileMethod, e: Vec<u64>|
            #[trigger] quantile_edges.ensures((c, num, m), e) ==> e.len() == num,
    ensures
        fitted_column_facts(col, n_bins, strategy, quantile_method, uniform_edges, quantile_edges, edges),
{
    if strategy == Strategy::Quantile && !spec_eq(fold_min(col), fold_max(col)) {
        let (c, raw, keep) = choose|c: Vec<u64>, raw: Vec<u64>, keep: Seq<bool>|
            c@ == col && #[trigger] quantile_edges.ensures((&c, (n_bins + 1) as usize, quantile_method), raw)
                && #[trigger] dedup_run(raw@, keep, gap_exceeds) && edges@ == kept(raw@, keep);
        assert(raw.len() == n_bins + 1);
        lemma_kept_len(raw@, keep);
    }
}

/// The inner edges: all but the two outer fences.
pub open spec fn inner_edges(edges: Seq<u64>) -> Seq<u64> {
    edges.subrange(1, edges.len() - 1)
}

/// `r` is a right insertion point of `v` in `inner` as a binary search for
/// the first edge not `<= v` finds it: the edge before `r` is `<= v` and the
/// edge at `r` is not.
pub open spec fn is_right_insertion(inner: Seq<u64>, v: u64, r: int) -> bool {
    &&& 0 <= r <= inner.len()
    &&& r > 0 ==> spec_le(inner[r - 1], v)
    &&& r < inner.len() ==> !spec_le(inner[r], v)
}

/// `inner` is split by `v`: the edges `<= v` all come before the others.
pub open spec fn partitioned_by(inner: Seq<u64>, v: u64) -> bool {
    forall|i: int, k: int|
        0 <= i < k < inner.len() && spec_le(#[trigger] inner[k], v) ==> spec_le(#[trigger] inner[i], v)
}

/// Edges without NaN, in nondecreasing numeric order.
pub open spec fn nondecreasing(s: Seq<u64>) -> bool {
    &&& forall|i: int| 0 <= i < s.len() ==> !spec_is_nan(#[trigger] s[i])
    &&& forall|i: int, k: int| 0 <= i < k < s.len() ==> numeric_key(#[trigger] s[i]) <= numeric_key(#[trigger] s[k])
}

/// The bin code of `v` against `edges` of a column with `nb` bins: a column
/// with fewer than two edges maps everything to bin 0; otherwise the code is
/// a right insertion point of `v` among the inner edges, clipped to
/// `nb - 1`.
pub open spec fn bin_code_ok(edges: Seq<u64>, nb: usize, v: u64, code: usize) -> bool {
    if edges.len() < 2 {
        code == 0
    } else {
        exists|r: int| is_right_insertion(inner_edges(edges), v, r) && code == (if r <= nb - 1 { r } else { nb - 1 })
    }
}

/// A row of values can be binned against `fitted` without indexing past
/// its columns, and every column with two or more edges has a bin.
pub open spec fn binnable(fitted: &Fitted, len: nat) -> bool {
    &&& len <= fitted.bin_edges.len()
    &&& len <= fitted.n_bins.len()
    &&& forall|j: int| 0 <= j < len && #[trigger] fitted.bin_edges@[j].len() >= 2 ==> fitted.n_bins@[j] >= 1
}

/// Whether rows of `len` values can be binned against `fitted`.
pub fn is_binnable(fitted: &Fitted, len: usize) -> (r: bool)
    ensures
        r == binnable(fitted, len as nat),
{
    if len > fitted.bin_edges.len() || len > fitted.n_bins.len() {
        return false;
    }
    let mut j: usize = 0;
    while j < len
        invariant
            j <= len <= fitted.bin_edges.len(),
            len <= fitted.n_bins.len(),
            forall|m: int| 0 <= m < j && #[trigger] fitted.bin_edges@[m].len() >= 2 ==> fitted.n_bins@[m] >= 1,
        decreases len - j,
    {
        if fitted.bin_edges[j].len() >= 2 && fitted.n_bins[j] < 1 {
            return false;
        }
        j = j + 1;
    }
    true
}

/// Binary search for the right insertion point of `v` among the inner edges.
pub fn search_right(edges: &Vec<u64>, v: u64) -> (r: usize)
    requires
        edges.len() >= 2,
    ensures
        is_right_insertion(inner_edges(edges@), v, r as int),
{
    let ghost inner = inner_edges(edges@);
    let len = edges.len() - 2;
    let mut lo: usize = 0;
    let mut hi: usize = len;
    while lo < hi
        invariant
            edges.len() >= 2,
            len == edges.len() - 2,
            inner == inner_edges(edges@),
            lo <= hi <= len,
            lo > 0 ==> spec_le(inner[lo - 1], v),
            hi < len ==> !spec_le(inner[hi as int], v),
        decreases hi - lo,
    {
        let mid = lo + (hi - lo) / 2;
        assert(inner[mid as int] == edges@[mid + 1]);
        if le(edges[mid + 1], v) {
            lo = mid + 1;
        } else {
            hi = mid;
        }
    }
    lo
}

/// The bin code of one value against one column's edges.
pub fn bin_code(edges: &Vec<u64>, nb: usize, v: u64) -> (code: usize)
    requires
        edges.len() >= 2 ==> nb >= 1,
    ensures
        bin_code_ok(edges@, nb, v, code),
{
    if edges.len() < 2 {
        return 0;
    }
    let r = search_right(edges, v);
    if r <= nb - 1 {
        r
    } else {
        nb - 1
    }
}

/// Bin codes of one row of values: entry `j` is binned against column `j`.
pub fn transform_row(row: &Vec<u64>, fitted: &Fitted) -> (codes: Vec<usize>)
    requires
        binnable(fitted, row.len() as nat),
    ensures
        codes.len() == row.len(),
        forall|j: int|
            0 <= j < row.len() ==> bin_code_ok(
                fitted.bin_edges@[j]@,
                fitted.n_bins@[j],
                row@[j],
                #[trigger] codes@[j],
            ),
{
    let mut codes: Vec<usize> = Vec::new();
    let mut j: usize = 0;
    while j < row.len()
        invariant
            j <= row.len(),
            binnable(fitted, row.len() as nat),
            codes.len() == j,
            forall|m: int|
                0 <= m < j ==> bin_code_ok(
                    fitted.bin_edges@[m]@,
                    fitted.n_bins@[m],
                    row@[m],
                    #[trigger] codes@[m],
                ),
        decreases row.len() - j,
    {
        let c = bin_code(&fitted.bin_edges[j], fitted.n_bins[j], row[j]);
        codes.push(c);
        j = j + 1;
    }
    codes
}

/// When the inner edges are split by `v`, the right insertion point is
/// unique: every edge before it is `<= v` and every edge from it on is not.
pub proof fn lemma_right_insertion_exact(inner: Seq<u64>, v: u64, r: int)
    requires
        partitioned_by(inner, v),
        is_right_insertion(inner, v, r),
    ensures
        forall|i: int| 0 <= i < r ==> spec_le(#[trigger] inner[i], v),
        forall|i: int| r <= i < inner.len() ==> !spec_le(#[trigger] inner[i], v),
{
    assert forall|i: int| 0 <= i < r implies spec_le(#[trigger] inner[i], v) by {
        if i < r - 1 {
            assert(spec_le(inner[r - 1], v));
        }
    }
    assert forall|i: int| r <= i < inner.len() implies !spec_le(#[trigger] inner[i], v) by {
        if i > r && spec_le(inner[i], v) {
            assert(spec_le(inner[r], v));
        }
    }
}

/// Right insertion points into edges split by `v` agree.
pub proof fn lemma_right_insertion_unique(inner: Seq<u64>, v: u64, r1: int, r2: int)
    requires
        partitioned_by(inner, v),
        is_right_insertion(inner, v, r1),
        is_right_insertion(inner, v, r2),
    ensures
        r1 == r2,
{
    lemma_right_insertion_exact(inner, v, r1);
    lemma_right_insertion_exact(inner, v, r2);
    if r1 < r2 {
        assert(spec_le(inner[r1], v));
    } else if r2 < r1 {
        assert(spec_le(inner[r2], v));
    }
}

/// Sorted edges are split by every value.
pub proof fn lemma_nondecreasing_partitioned(inner: Seq<u64>, v: u64)
    requires
        nondecreasing(inner),
    ensures
        partitioned_by(inner, v),
{
}

/// Over sorted edges, a larger value never gets a smaller bin.
pub proof fn lemma_bin_code_monotone(
    edges: Seq<u64>,
    nb: usize,
    v: u64,
    w: u64,
    cv: usize,
    cw: usize,
)
    requires
        edges.len() >= 2 ==> nb >= 1,
        nondecreasing(inner_edges(edges)),
        spec_le(v, w),
        bin_code_ok(edges, nb, v, cv),
        bin_code_ok(edges, nb, w, cw),
    ensures
        cv <= cw,
{
    if edges.len() >= 2 {
        let inner = inner_edges(edges);
        let rv = choose|r: int| is_right_insertion(inner, v, r) && cv == (if r <= nb - 1 { r } else { nb - 1 });
        let rw = choose|r: int| is_right_insertion(inner, w, r) && cw == (if r <= nb - 1 { r } else { nb - 1 });
        if rv > rw {
            assert(spec_le(inner[rv - 1], v));
            assert(!spec_le(inner[rw], w));
            assert(numeric_key(inner[rw]) <= numeric_key(inner[rv - 1]));
        }
    }
}

/// In a well-formed fit every code is a bin of its column: below `n_bins`,
/// or 0 for a collapsed column; and the clip never changes the insertion
/// point.
pub proof fn lemma_bin_code_in_range(edges: Seq<u64>, nb: usize, v: u64, code: usize)
    requires
        edges.len() == nb + 1,
        bin_code_ok(edges, nb, v, code),
    ensures
        nb == 0 ==> code == 0,
        nb > 0 ==> code < nb,
        nb > 0 ==> is_right_insertion(inner_edges(edges), v, code as int),
{
}

} // verus!
