//! Encoding a whole row-major matrix against fitted edges, as ordinal bin
//! codes or as one-hot indicator rows.

use vstd::prelude::*;
use crate::kbins::{Fitted, binnable, bin_code_ok, transform_row, lemma_bin_code_in_range};
use crate::onehot::{block_start, onehot_row, spec_onehot, total_width, lemma_block_start_monotone};

verus! {

/// Row `i` of a row-major matrix with `n_cols` columns.
pub open spec fn row_of(data: Seq<u64>, n_cols: nat, i: nat) -> Seq<u64> {
    data.subrange((i * n_cols) as int, (i * n_cols + n_cols) as int)
}

/// `codes` are bin codes of the values of `row` against `fitted`, column by
/// column.
pub open spec fn row_codes_ok(fitted: &Fitted, row: Seq<u64>, codes: Seq<usize>) -> bool {
    &&& codes.len() == row.len()
    &&& forall|j: int|
        0 <= j < row.len() ==> bin_code_ok(
            fitted.bin_edges@[j]@,
            fitted.n_bins@[j],
            row[j],
            #[trigger] codes[j],
        )
}

fn copy_row(data: &Vec<u64>, n_cols: usize, i: usize, n_rows: usize) -> (row: Vec<u64>)
    requires
        i < n_rows,
        data.len() == n_rows * n_cols,
    ensures
        row@ == row_of(data@, n_cols as nat, i as nat),
        row.len() == n_cols,
{
    assert((i + 1) * n_cols <= n_rows * n_cols) by (nonlinear_arith)
        requires
            i < n_rows,
    ;
    assert((i + 1) * n_cols == i * n_cols + n_cols) by (nonlinear_arith);
    let start = i * n_cols;
    let end = start + n_cols;
    let mut row: Vec<u64> = Vec::new();
    let mut k = start;
    while k < end
        invariant
            start <= k <= end <= data.len(),
            start == i * n_cols,
            end == i * n_cols + n_cols,
            row@ =~= data@.subrange(start as int, k as int),
        decreases end - k,
    {
        row.push(data[k]);
        k = k + 1;
    }
    row
}

/// Ordinal encoding: each row of the `n_rows × n_cols` matrix replaced by the
/// bin codes of its values.
pub fn ordinal_rows(data: &Vec<u64>, n_rows: usize, n_cols: usize, fitted: &Fitted) -> (out: Vec<
    Vec<usize>,
>)
    requires
        n_cols > 0,
        data.len() == n_rows * n_cols,
        binnable(fitted, n_cols as nat),
    ensures
        out.len() == n_rows,
        forall|i: int|
            0 <= i < n_rows ==> row_codes_ok(fitted, row_of(data@, n_cols as nat, i as nat), #[trigger] out@[i]@),
{
    let mut out: Vec<Vec<usize>> = Vec::new();
    let mut i: usize = 0;
    while i < n_rows
        invariant
            i <= n_rows,
            data.len() == n_rows * n_cols,
            binnable(fitted, n_cols as nat),
            out.len() == i,
            forall|m: int|
                0 <= m < i ==> row_codes_ok(fitted, row_of(data@, n_cols as nat, m as nat), #[trigger] out@[m]@),
        decreases n_rows - i,
    {
        let row = copy_row(data, n_cols, i, n_rows);
        let codes = transform_row(&row, fitted);
        out.push(codes);
        i = i + 1;
    }
    out
}

/// `expanded` is the one-hot expansion of some bin codes of `row`.
pub open spec fn onehot_row_ok(fitted: &Fitted, row: Seq<u64>, expanded: Seq<u8>) -> bool {
    exists|codes: Seq<usize>|
        #[trigger] row_codes_ok(fitted, row, codes) && expanded == spec_onehot(codes, fitted.n_bins@)
}

/// Against a well-formed fit, every bin code of a row is a bin of its
/// column (0 for a column without bins), so it stays inside the column's
/// block of the expanded row.
pub proof fn lemma_codes_fit_blocks(fitted: &Fitted, row: Seq<u64>, codes: Seq<usize>)
    requires
        fitted.wf(),
        row.len() <= fitted.n_bins.len(),
        row_codes_ok(fitted, row, codes),
    ensures
        forall|j: int|
            0 <= j < codes.len() && #[trigger] fitted.n_bins@[j] > 0 ==> block_start(fitted.n_bins@, j)
                + codes[j] < total_width(fitted.n_bins@),
        forall|j: int| 0 <= j < codes.len() && fitted.n_bins@[j] > 0 ==> #[trigger] codes[j] < fitted.n_bins@[j],
        forall|j: int| 0 <= j < codes.len() && fitted.n_bins@[j] == 0 ==> #[trigger] codes[j] == 0,
{
    let nb = fitted.n_bins@;
    assert forall|j: int| 0 <= j < codes.len() && fitted.n_bins@[j] == 0 implies #[trigger] codes[j] == 0 by {
        assert(fitted.bin_edges@[j].len() == nb[j] + 1);
        lemma_bin_code_in_range(fitted.bin_edges@[j]@, nb[j], row[j], codes[j]);
    }
    assert forall|j: int| 0 <= j < codes.len() && fitted.n_bins@[j] > 0 implies #[trigger] codes[j]
        < fitted.n_bins@[j] by {
        assert(fitted.bin_edges@[j].len() == nb[j] + 1);
        lemma_bin_code_in_range(fitted.bin_edges@[j]@, nb[j], row[j], codes[j]);
    }
    assert forall|j: int| 0 <= j < codes.len() && #[trigger] fitted.n_bins@[j] > 0 implies block_start(
        nb,
        j,
    ) + codes[j] < total_width(nb) by {
        assert(codes[j] < nb[j]);
        lemma_block_start_monotone(nb, j + 1, nb.len() as int);
    }
}

/// One-hot encoding: each row of the `n_rows × n_cols` matrix replaced by
/// the indicator expansion of its bin codes.
pub fn onehot_rows(data: &Vec<u64>, n_rows: usize, n_cols: usize, fitted: &Fitted) -> (out: Vec<
    Vec<u8>,
>)
    requires
        n_cols > 0,
        data.len() == n_rows * n_cols,
        fitted.wf(),
        n_cols <= fitted.n_bins.len(),
        total_width(fitted.n_bins@) <= usize::MAX,
    ensures
        out.len() == n_rows,
        forall|i: int|
            0 <= i < n_rows ==> onehot_row_ok(fitted, row_of(data@, n_cols as nat, i as nat), #[trigger] out@[i]@),
{
    let mut out: Vec<Vec<u8>> = Vec::new();
    let mut i: usize = 0;
    assert forall|j: int| 0 <= j < n_cols && #[trigger] fitted.bin_edges@[j].len() >= 2 implies fitted.n_bins@[j] >= 1 by {
        assert(fitted.bin_edges@[j].len() == fitted.n_bins@[j] + 1);
    }
    assert(binnable(fitted, n_cols as nat));
    while i < n_rows
        invariant
            i <= n_rows,
            data.len() == n_rows * n_cols,
            fitted.wf(),
            n_cols <= fitted.n_bins.len(),
            binnable(fitted, n_cols as nat),
            total_width(fitted.n_bins@) <= usize::MAX,
            out.len() == i,
            forall|m: int|
                0 <= m < i ==> onehot_row_ok(fitted, row_of(data@, n_cols as nat, m as nat), #[trigger] out@[m]@),
        decreases n_rows - i,
    {
        let row = copy_row(data, n_cols, i, n_rows);
        let codes = transform_row(&row, fitted);
        proof {
            lemma_codes_fit_blocks(fitted, row@, codes@);
        }
        let expanded = onehot_row(&codes, fitted);
        let ghost prev = out@;
        out.push(expanded);
        proof {
            assert(row_codes_ok(fitted, row_of(data@, n_cols as nat, i as nat), codes@));
            assert(onehot_row_ok(fitted, row_of(data@, n_cols as nat, i as nat), out@[i as int]@));
            assert forall|m: int|
                0 <= m < i + 1 implies onehot_row_ok(fitted, row_of(data@, n_cols as nat, m as nat), #[trigger] out@[m]@) by {
                if m < i {
                    assert(out@[m] == prev[m]);
                }
            }
        }
        i = i + 1;
    }
    out
}

} // verus!
