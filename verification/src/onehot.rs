//! One-hot expansion of ordinal bin codes.

use vstd::prelude::*;
use crate::kbins::Fitted;

verus! {

/// Sum of the first `j` bin counts: where column `j`'s indicator block
/// starts.
pub open spec fn block_start(n_bins: Seq<usize>, j: int) -> int
    decreases j,
{
    if j <= 0 || n_bins.len() == 0 {
        0
    } else if j > n_bins.len() {
        block_start(n_bins, n_bins.len() as int)
    } else {
        block_start(n_bins, j - 1) + n_bins[j - 1]
    }
}

/// Total number of indicator columns.
pub open spec fn total_width(n_bins: Seq<usize>) -> int {
    block_start(n_bins, n_bins.len() as int)
}

/// Position `p` of the expanded row is set by some column `j` of the
/// ordinal row: the column has bins and `p` is its block start plus its
/// code.
pub open spec fn is_hot(ordinal: Seq<usize>, n_bins: Seq<usize>, p: int) -> bool {
    exists|j: int|
        0 <= j < ordinal.len() && n_bins[j] > 0 && p == block_start(n_bins, j) + #[trigger] ordinal[j]
}

/// The expanded row: one slot per bin of every column, 1 where a column's
/// code lands and 0 elsewhere.
pub open spec fn spec_onehot(ordinal: Seq<usize>, n_bins: Seq<usize>) -> Seq<u8> {
    Seq::new(
        total_width(n_bins) as nat,
        |p: int|
            if is_hot(ordinal, n_bins, p) {
                1u8
            } else {
                0u8
            },
    )
}

/// Block starts never decrease.
pub proof fn lemma_block_start_monotone(n_bins: Seq<usize>, i: int, k: int)
    requires
        0 <= i <= k <= n_bins.len(),
    ensures
        block_start(n_bins, i) <= block_start(n_bins, k),
        0 <= block_start(n_bins, i),
    decreases k - i,
{
    if i < k {
        lemma_block_start_monotone(n_bins, i, k - 1);
    } else {
        lemma_block_start_nonneg(n_bins, i);
    }
}

proof fn lemma_block_start_nonneg(n_bins: Seq<usize>, i: int)
    requires
        0 <= i <= n_bins.len(),
    ensures
        0 <= block_start(n_bins, i),
    decreases i,
{
    if i > 0 {
        lemma_block_start_nonneg(n_bins, i - 1);
    }
}

/// Sums the bin counts, the width of an expanded row.
pub fn total_bins(n_bins: &Vec<usize>) -> (t: usize)
    requires
        total_width(n_bins@) <= usize::MAX,
    ensures
        t == total_width(n_bins@),
{
    let mut t: usize = 0;
    let mut j: usize = 0;
    while j < n_bins.len()
        invariant
            j <= n_bins.len(),
            total_width(n_bins@) <= usize::MAX,
            t == block_start(n_bins@, j as int),
        decreases n_bins.len() - j,
    {
        proof {
            lemma_block_start_monotone(n_bins@, j + 1, n_bins.len() as int);
        }
        t = t + n_bins[j];
        j = j + 1;
    }
    t
}

/// The width of an expanded row, or `None` when it does not fit a `usize`.
pub fn checked_total_bins(n_bins: &Vec<usize>) -> (t: Option<usize>)
    ensures
        t is Some <==> total_width(n_bins@) <= usize::MAX,
        t matches Some(w) ==> w == total_width(n_bins@),
{
    let mut t: usize = 0;
    let mut j: usize = 0;
    while j < n_bins.len()
        invariant
            j <= n_bins.len(),
            t == block_start(n_bins@, j as int),
        decreases n_bins.len() - j,
    {
        if t > usize::MAX - n_bins[j] {
            proof {
                lemma_block_start_monotone(n_bins@, j + 1, n_bins.len() as int);
            }
            return None;
        }
        t = t + n_bins[j];
        j = j + 1;
    }
    Some(t)
}

/// Expands one ordinal row into indicator columns: the result has one slot
/// per bin of every column, and the slot at a column's block start plus its
/// code is 1; all other slots are 0. A column without bins contributes no
/// slots and sets none.
pub fn onehot_row(ordinal_row: &Vec<usize>, fitted: &Fitted) -> (out: Vec<u8>)
    requires
        ordinal_row.len() <= fitted.n_bins.len(),
        total_width(fitted.n_bins@) <= usize::MAX,
        forall|j: int|
            0 <= j < ordinal_row.len() && #[trigger] fitted.n_bins@[j] > 0 ==> block_start(
                fitted.n_bins@,
                j,
            ) + ordinal_row@[j] < total_width(fitted.n_bins@),
    ensures
        out@ == spec_onehot(ordinal_row@, fitted.n_bins@),
        out.len() == total_width(fitted.n_bins@),
        forall|p: int|
            0 <= p < out.len() ==> #[trigger] out@[p] == (if is_hot(
                ordinal_row@,
                fitted.n_bins@,
                p,
            ) {
                1u8
            } else {
                0u8
            }),
        forall|j: int, k: int|
            #![trigger out@[block_start(fitted.n_bins@, j) + k], ordinal_row@[j]]
            0 <= j < ordinal_row.len() && 0 <= k < fitted.n_bins@[j] && (forall|m: int|
                0 <= m < ordinal_row.len() && fitted.n_bins@[m] > 0 ==> #[trigger] ordinal_row@[m]
                    < fitted.n_bins@[m]) ==> out@[block_start(fitted.n_bins@, j) + k] == (if k
                == ordinal_row@[j] {
                1u8
            } else {
                0u8
            }),
{
    let ghost nb = fitted.n_bins@;
    let ghost ord = ordinal_row@;
    let total = total_bins(&fitted.n_bins);
    let mut out: Vec<u8> = Vec::new();
    let mut p: usize = 0;
    while p < total
        invariant
            p <= total,
            out.len() == p,
            forall|q: int| 0 <= q < p ==> #[trigger] out@[q] == 0u8,
        decreases total - p,
    {
        out.push(0u8);
        p = p + 1;
    }
    let mut offset: usize = 0;
    let mut j: usize = 0;
    while j < ordinal_row.len()
        invariant
            nb == fitted.n_bins@,
            ord == ordinal_row@,
            j <= ordinal_row.len() <= nb.len(),
            total == total_width(nb),
            out.len() == total,
            offset == block_start(nb, j as int),
            forall|jj: int|
                0 <= jj < ord.len() && #[trigger] nb[jj] > 0 ==> block_start(nb, jj) + ord[jj]
                    < total_width(nb),
            forall|q: int|
                0 <= q < out.len() ==> #[trigger] out@[q] == (if is_hot(ord.take(j as int), nb, q) {
                    1u8
                } else {
                    0u8
                }),
        decreases ordinal_row.len() - j,
    {
        let k = fitted.n_bins[j];
        let v = ordinal_row[j];
        let ghost old_out = out@;
        proof {
            lemma_block_start_monotone(nb, j + 1, nb.len() as int);
        }
        if k > 0 {
            out.set(offset + v, 1u8);
        }
        proof {
            let t0 = ord.take(j as int);
            let t1 = ord.take(j + 1);
            assert forall|q: int| 0 <= q < out.len() implies #[trigger] out@[q] == (if is_hot(
                t1,
                nb,
                q,
            ) {
                1u8
            } else {
                0u8
            }) by {
                if k > 0 && q == offset + v {
                    assert(t1[j as int] == v);
                    assert(is_hot(t1, nb, q));
                } else {
                    assert(old_out[q] == out@[q]);
                    if is_hot(t1, nb, q) {
                        let w = choose|w: int|
                            0 <= w < t1.len() && nb[w] > 0 && q == block_start(nb, w) + #[trigger] t1[w];
                        assert(w != j);
                        assert(t0[w] == t1[w]);
                        assert(is_hot(t0, nb, q));
                    }
                    if is_hot(t0, nb, q) {
                        let w = choose|w: int|
                            0 <= w < t0.len() && nb[w] > 0 && q == block_start(nb, w) + #[trigger] t0[w];
                        assert(t0[w] == t1[w]);
                        assert(is_hot(t1, nb, q));
                    }
                }
            }
        }
        offset = offset + k;
        j = j + 1;
    }
    proof {
        assert(ord.take(ord.len() as int) =~= ord);
        lemma_block_start_nonneg(nb, nb.len() as int);
        assert(out@ =~= spec_onehot(ord, nb));
        assert forall|j: int, k: int|
            #![trigger out@[block_start(nb, j) + k], ord[j]]
            0 <= j < ord.len() && 0 <= k < nb[j] && (forall|m: int|
                0 <= m < ord.len() && nb[m] > 0 ==> #[trigger] ord[m] < nb[m])
                implies out@[block_start(nb, j) + k] == (if k == ord[j] { 1u8 } else { 0u8 }) by {
            lemma_onehot_blocks(ord, nb, j, k);
            lemma_block_start_monotone(nb, j + 1, nb.len() as int);
            lemma_block_start_monotone(nb, 0, j);
            assert(block_start(nb, j + 1) == block_start(nb, j) + nb[j]);
        }
    }
    out
}

/// When every code is a bin of its column, the block of each column with
/// bins holds exactly one 1, at the column's code: expanding and reading the
/// blocks back gives the ordinal row.
pub proof fn lemma_onehot_blocks(ordinal: Seq<usize>, n_bins: Seq<usize>, j: int, c: int)
    requires
        ordinal.len() <= n_bins.len(),
        forall|m: int| 0 <= m < ordinal.len() && n_bins[m] > 0 ==> #[trigger] ordinal[m] < n_bins[m],
        0 <= j < ordinal.len(),
        0 <= c < n_bins[j],
    ensures
        is_hot(ordinal, n_bins, block_start(n_bins, j) + c) <==> c == ordinal[j],
{
    let p = block_start(n_bins, j) + c;
    if c == ordinal[j] {
        assert(is_hot(ordinal, n_bins, p));
    }
    if is_hot(ordinal, n_bins, p) {
        let w = choose|w: int|
            0 <= w < ordinal.len() && n_bins[w] > 0 && p == block_start(n_bins, w) + #[trigger] ordinal[w];
        if w < j {
            lemma_block_start_monotone(n_bins, w + 1, j);
            assert(false);
        } else if w > j {
            lemma_block_start_monotone(n_bins, j + 1, w);
            assert(false);
        }
    }
}

} // verus!
