//! Percentiles recomposed from the library's picks and the binary64
//! arithmetic that the caller supplies.

use rsomics_kbins::order::sort_total;
use rsomics_kbins::quantile::{Pick, aicdf_pick, linear_pick, pick_operands, select_operands};

fn bits(xs: &[f64]) -> Vec<u64> {
    xs.iter().map(|v| v.to_bits()).collect()
}

fn combine(pick: Pick, a: u64, b: u64, frac: f64) -> f64 {
    let (a, b) = (f64::from_bits(a), f64::from_bits(b));
    match pick {
        Pick::Single(_) => a,
        Pick::Midpoint(_) => (a + b) * 0.5,
        Pick::Lerp(_) => a + frac * (b - a),
    }
}

fn aicdf_pos(n: usize, q: f64) -> (usize, bool) {
    let h = n as f64 * (q / 100.0);
    let j = h.floor() as usize;
    (j, h - j as f64 == 0.0)
}

fn linear_pos(n: usize, q: f64) -> (usize, f64) {
    let h = (n as f64 - 1.0) * (q / 100.0);
    let lo = h.floor() as usize;
    (lo, h - lo as f64)
}

fn percentile_aicdf(xs: &[f64], q: f64) -> f64 {
    let n = xs.len();
    if n == 0 {
        return f64::NAN;
    }
    let (j, exact) = aicdf_pos(n, q);
    let p = aicdf_pick(n, j, exact);
    let (a, b) = select_operands(&mut bits(xs), p);
    combine(p, a, b, 0.0)
}

fn percentile_linear(xs: &[f64], q: f64) -> f64 {
    let n = xs.len();
    if n == 0 {
        return f64::NAN;
    }
    if n == 1 {
        return xs[0];
    }
    let (lo, frac) = linear_pos(n, q);
    let p = linear_pick(n, lo);
    let (a, b) = select_operands(&mut bits(xs), p);
    combine(p, a, b, frac)
}

fn percentiles_aicdf(col: &[f64], levels: &[f64]) -> Vec<f64> {
    let sorted = sort_total(&bits(col));
    let n = sorted.len();
    levels
        .iter()
        .map(|&q| {
            let (j, exact) = aicdf_pos(n, q);
            let p = aicdf_pick(n, j, exact);
            let (a, b) = pick_operands(&sorted, p);
            combine(p, a, b, 0.0)
        })
        .collect()
}

fn percentiles_linear(col: &[f64], levels: &[f64]) -> Vec<f64> {
    let sorted = sort_total(&bits(col));
    let n = sorted.len();
    levels
        .iter()
        .map(|&q| {
            let (lo, frac) = linear_pos(n, q);
            let p = linear_pick(n, lo);
            let (a, b) = pick_operands(&sorted, p);
            combine(p, a, b, frac)
        })
        .collect()
}

fn close(a: f64, b: f64) {
    assert!((a - b).abs() < 1e-12, "got {a}, expected {b}");
}

fn bit_exact(a: f64, b: f64) {
    assert_eq!(a.to_bits(), b.to_bits(), "got {a}, expected {b}");
}

#[test]
fn linear_type7_basic() {
    let c = [1.0f64, 2.0, 3.0, 4.0, 5.0];
    close(percentile_linear(&c, 25.0), 2.0);
    close(percentile_linear(&c, 50.0), 3.0);
    close(percentile_linear(&c, 75.0), 4.0);
    close(percentile_linear(&c, 10.0), 1.4);
}

#[test]
fn aicdf_basic() {
    let c = [1.0f64, 2.0, 3.0, 4.0];
    close(percentile_aicdf(&c, 0.0), 1.0);
    close(percentile_aicdf(&c, 25.0), 1.5);
    close(percentile_aicdf(&c, 50.0), 2.5);
    close(percentile_aicdf(&c, 75.0), 3.5);
    close(percentile_aicdf(&c, 100.0), 4.0);
}

#[test]
fn aicdf_fractional_h() {
    let c = [1.0f64, 2.0, 3.0, 4.0];
    close(percentile_aicdf(&c, 12.5), 1.0);
    close(percentile_aicdf(&c, 37.5), 2.0);
}

#[test]
fn percentiles_aicdf_matches_scalar() {
    let col = [3.0f64, 1.0, 4.0, 1.0, 5.0, 9.0, 2.0, 6.0];
    let levels = [0.0, 20.0, 40.0, 60.0, 80.0, 100.0];
    let batch = percentiles_aicdf(&col, &levels);
    for (i, &q) in levels.iter().enumerate() {
        bit_exact(batch[i], percentile_aicdf(&col, q));
    }
}

#[test]
fn percentiles_linear_matches_scalar() {
    let col = [3.0f64, 1.0, 4.0, 1.0, 5.0, 9.0, 2.0, 6.0];
    let levels = [0.0, 25.0, 50.0, 75.0, 100.0];
    let batch = percentiles_linear(&col, &levels);
    for (i, &q) in levels.iter().enumerate() {
        bit_exact(batch[i], percentile_linear(&col, q));
    }
}

#[test]
fn sklearn_golden_aicdf_n5_quantile() {
    let col = [0.30471708f64, 0.94056472, 0.1278404, -0.85304393, 0.0660307];
    let levels = [0.0, 20.0, 40.0, 60.0, 80.0, 100.0];
    let result = percentiles_aicdf(&col, &levels);
    let sorted = [-0.85304393f64, 0.0660307, 0.1278404, 0.30471708, 0.94056472];
    close(result[0], sorted[0]);
    close(result[1], (sorted[0] + sorted[1]) * 0.5);
    close(result[2], (sorted[1] + sorted[2]) * 0.5);
    close(result[3], (sorted[2] + sorted[3]) * 0.5);
    close(result[4], (sorted[3] + sorted[4]) * 0.5);
    close(result[5], sorted[4]);
}

#[test]
fn aicdf_picks() {
    assert_eq!(aicdf_pick(4, 0, true), Pick::Single(0));
    assert_eq!(aicdf_pick(4, 1, true), Pick::Midpoint(0));
    assert_eq!(aicdf_pick(4, 3, true), Pick::Midpoint(2));
    assert_eq!(aicdf_pick(4, 4, true), Pick::Single(3));
    assert_eq!(aicdf_pick(4, 1, false), Pick::Single(1));
    assert_eq!(aicdf_pick(4, 9, false), Pick::Single(3));
}

#[test]
fn linear_picks() {
    assert_eq!(linear_pick(5, 0), Pick::Lerp(0));
    assert_eq!(linear_pick(5, 3), Pick::Lerp(3));
    assert_eq!(linear_pick(5, 4), Pick::Single(4));
    assert_eq!(linear_pick(1, 0), Pick::Single(0));
}

#[test]
fn operands_of_sorted_and_unsorted_agree() {
    let col = bits(&[3.0, 1.0, 4.0, 1.0, 5.0]);
    let sorted = sort_total(&col);
    for p in [Pick::Single(2), Pick::Midpoint(1), Pick::Lerp(3)] {
        let mut work = col.clone();
        assert_eq!(select_operands(&mut work, p), pick_operands(&sorted, p));
        assert_eq!(work, sorted);
    }
    assert_eq!(pick_operands(&sorted, Pick::Midpoint(1)), (1.0f64.to_bits(), 3.0f64.to_bits()));
}

#[test]
fn picks_rise_with_the_level() {
    let n = 7usize;
    let mut prev = (0usize, 0usize);
    for k in 0..=40 {
        let q = 2.5 * k as f64;
        let h = n as f64 * (q / 100.0);
        let j = h.floor() as usize;
        let p = aicdf_pick(n, j, h - j as f64 == 0.0);
        let (lo, hi) = match p {
            Pick::Single(i) => (i, i),
            Pick::Midpoint(i) | Pick::Lerp(i) => (i, i + 1),
        };
        assert!(lo >= prev.0 && hi >= prev.1, "level {q}");
        prev = (lo, hi);
    }
}
