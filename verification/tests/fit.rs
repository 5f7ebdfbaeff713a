//! Fitting recomposed from the library's column logic and the binary64
//! arithmetic that the caller supplies.

use rsomics_kbins::kbins::{QuantileMethod, Strategy};
use rsomics_kbins::order::sort_total;
use rsomics_kbins::quantile::{Pick, aicdf_pick, linear_pick, pick_operands};
use rsomics_kbins::{Fitted, transform_row};

fn bits(xs: &[f64]) -> Vec<u64> {
    xs.iter().map(|v| v.to_bits()).collect()
}

fn vals(xs: &[u64]) -> Vec<f64> {
    xs.iter().map(|&v| f64::from_bits(v)).collect()
}

fn linspace(start: f64, stop: f64, num: usize) -> Vec<f64> {
    let step = (stop - start) / (num - 1) as f64;
    let mut v: Vec<f64> = (0..num).map(|i| start + step * i as f64).collect();
    *v.last_mut().unwrap() = stop;
    v
}

fn percentiles(col: &[u64], levels: &[f64], method: QuantileMethod) -> Vec<f64> {
    let sorted = sort_total(&col.to_vec());
    let n = sorted.len();
    levels
        .iter()
        .map(|&q| {
            let (pick, frac) = match method {
                QuantileMethod::AveragedInvertedCdf => {
                    let h = n as f64 * (q / 100.0);
                    let j = h.floor() as usize;
                    (aicdf_pick(n, j, h - j as f64 == 0.0), 0.0)
                }
                QuantileMethod::Linear => {
                    let h = (n as f64 - 1.0) * (q / 100.0);
                    let lo = h.floor() as usize;
                    (linear_pick(n, lo), h - lo as f64)
                }
            };
            let (a, b) = pick_operands(&sorted, pick);
            let (a, b) = (f64::from_bits(a), f64::from_bits(b));
            match pick {
                Pick::Single(_) => a,
                Pick::Midpoint(_) => (a + b) * 0.5,
                Pick::Lerp(_) => a + frac * (b - a),
            }
        })
        .collect()
}

fn fit(data: &[f64], n_rows: usize, n_cols: usize, n_bins: usize, strategy: Strategy, method: QuantileMethod) -> Fitted {
    rsomics_kbins::kbins::fit(
        &bits(data),
        n_rows,
        n_cols,
        n_bins,
        strategy,
        method,
        |min: u64, max: u64, num: usize| bits(&linspace(f64::from_bits(min), f64::from_bits(max), num)),
        |col: &Vec<u64>, num: usize, m: QuantileMethod| bits(&percentiles(col, &linspace(0.0, 100.0, num), m)),
        |last: u64, e: u64| f64::from_bits(e) - f64::from_bits(last) > 1e-8,
    )
}

fn code(v: f64, f: &Fitted) -> usize {
    transform_row(&bits(&[v]), f)[0]
}

#[test]
fn uniform_basic() {
    let data = [-2.0, -1.0, 0.0, 1.0];
    let f = fit(&data, 4, 1, 3, Strategy::Uniform, QuantileMethod::AveragedInvertedCdf);
    assert_eq!(vals(&f.bin_edges[0]), [-2.0, -1.0, 0.0, 1.0]);
    assert_eq!(f.n_bins[0], 3);
    assert_eq!(code(-2.0, &f), 0);
    assert_eq!(code(1.0, &f), 2);
}

#[test]
fn constant_column_becomes_one_bin() {
    let data = [7.0, 7.0, 7.0];
    let f = fit(&data, 3, 1, 5, Strategy::Quantile, QuantileMethod::AveragedInvertedCdf);
    assert_eq!(f.n_bins[0], 1);
    assert_eq!(vals(&f.bin_edges[0]), [f64::NEG_INFINITY, f64::INFINITY]);
    assert_eq!(code(7.0, &f), 0);
}

#[test]
fn uniform_negative_values() {
    let data = [-10.0f64, -8.0, -6.0, -4.0, -2.0];
    let f = fit(&data, 5, 1, 5, Strategy::Uniform, QuantileMethod::AveragedInvertedCdf);
    for (i, &v) in data.iter().enumerate() {
        assert_eq!(code(v, &f), i, "i={i} data={v}");
    }
}

#[test]
fn quantile_dedup_collapses_bins() {
    let col = [1.0, 1.0, 2.0, 2.0, 2.0, 3.0];
    let f = fit(&col, 6, 1, 5, Strategy::Quantile, QuantileMethod::AveragedInvertedCdf);
    assert_eq!(f.n_bins[0], 2);
    assert_eq!(vals(&f.bin_edges[0]), [1.0, 2.0, 3.0]);
}

#[test]
fn quantile_full_collapse_yields_zero_bins() {
    let col = [1.0, 1.000000001, 1.0, 1.000000001];
    let f = fit(&col, 4, 1, 5, Strategy::Quantile, QuantileMethod::AveragedInvertedCdf);
    assert_eq!(f.n_bins[0], 0);
    assert_eq!(vals(&f.bin_edges[0]), [1.0]);
    for &v in &col {
        assert_eq!(code(v, &f), 0);
    }
}

#[test]
fn fit_of_a_matrix() {
    // Columns: spread, constant, tied.
    let data = [
        0.0, 5.0, 1.0, //
        1.0, 5.0, 1.0, //
        2.0, 5.0, 2.0, //
        3.0, 5.0, 2.0,
    ];
    let f = fit(&data, 4, 3, 3, Strategy::Quantile, QuantileMethod::Linear);
    assert_eq!(f.n_bins.len(), 3);
    assert_eq!(f.n_bins[1], 1);
    for j in 0..3 {
        assert_eq!(f.bin_edges[j].len(), f.n_bins[j] + 1);
    }
    assert_eq!(vals(&f.bin_edges[0]), [0.0, 1.0, 2.0, 3.0]);
    assert_eq!(vals(&f.bin_edges[2]), [1.0, 2.0]);
}

#[test]
fn near_duplicates_are_judged_against_the_previous_raw_edge() {
    // Raw quantile edges [0, 6e-9, 1.2e-8]: each step is at most 1e-8, so
    // only the first edge survives.
    let col = [0.0, 6e-9, 1.2e-8];
    let f = fit(&col, 3, 1, 2, Strategy::Quantile, QuantileMethod::AveragedInvertedCdf);
    assert_eq!(vals(&f.bin_edges[0]), [0.0]);
    assert_eq!(f.n_bins[0], 0);
}

#[test]
fn bins_never_exceed_the_request() {
    let data: Vec<f64> = (0..40).map(|i| ((i * 37) % 11) as f64 * 0.5).collect();
    for &nb in &[2usize, 3, 7, 20] {
        for strategy in [Strategy::Uniform, Strategy::Quantile] {
            for method in [QuantileMethod::AveragedInvertedCdf, QuantileMethod::Linear] {
                let f = fit(&data, 20, 2, nb, strategy, method);
                assert!(f.n_bins.iter().all(|&b| b <= nb));
            }
        }
    }
}

#[test]
fn row_order_does_not_change_the_fit() {
    let rows = [[3.0, 0.5], [1.0, 0.25], [4.0, 0.5], [1.5, 9.0], [9.0, 0.0], [2.0, 6.5]];
    let perm = [4usize, 2, 0, 5, 1, 3];
    let d1: Vec<f64> = rows.iter().flatten().copied().collect();
    let d2: Vec<f64> = perm.iter().flat_map(|&p| rows[p]).collect();
    for strategy in [Strategy::Uniform, Strategy::Quantile] {
        let f1 = fit(&d1, 6, 2, 4, strategy, QuantileMethod::AveragedInvertedCdf);
        let f2 = fit(&d2, 6, 2, 4, strategy, QuantileMethod::AveragedInvertedCdf);
        assert_eq!(f1.n_bins, f2.n_bins);
        assert_eq!(f1.bin_edges, f2.bin_edges);
    }
}
