use rsomics_kbins::kbins::{
    ColumnRange, bin_code, extract_column, column_range, constant_column_edges, dedup_edges, search_right,
};
use rsomics_kbins::{Fitted, onehot_row, transform_row};

fn bits(xs: &[f64]) -> Vec<u64> {
    xs.iter().map(|v| v.to_bits()).collect()
}

fn gap(last: u64, e: u64) -> bool {
    f64::from_bits(e) - f64::from_bits(last) > 1e-8
}

fn one_column(edges: &[f64]) -> Fitted {
    let mut f = Fitted::new();
    f.push_column(bits(edges));
    f
}

#[test]
fn column_extracts_row_major_column() {
    let data = bits(&[1.0, 2.0, 3.0, 4.0, 5.0, 6.0]);
    assert_eq!(extract_column(&data, 3, 2, 1), bits(&[2.0, 4.0, 6.0]));
    assert_eq!(extract_column(&data, 2, 3, 0), bits(&[1.0, 4.0]));
}

#[test]
fn signed_zeros_are_a_constant_column() {
    assert_eq!(column_range(&bits(&[0.0, -0.0, 0.0])), ColumnRange::Constant);
}

#[test]
fn spread_column_reports_min_and_max() {
    let col = bits(&[-2.0, 1.0, -1.0, 0.0]);
    assert_eq!(
        column_range(&col),
        ColumnRange::Spread { min: (-2.0f64).to_bits(), max: 1.0f64.to_bits() }
    );
}

#[test]
fn empty_column_is_spread_between_infinities() {
    assert_eq!(
        column_range(&Vec::new()),
        ColumnRange::Spread { min: f64::INFINITY.to_bits(), max: f64::NEG_INFINITY.to_bits() }
    );
}

#[test]
fn dedup_compares_consecutive_raw_edges() {
    let raw = bits(&[0.0, 0.6e-8, 1.2e-8, 1.8e-8]);
    assert_eq!(dedup_edges(&raw, gap), bits(&[0.0]));
    let raw = bits(&[0.0, 2e-8, 2.5e-8, 5e-8]);
    assert_eq!(dedup_edges(&raw, gap), bits(&[0.0, 2e-8, 5e-8]));
    assert!(dedup_edges(&Vec::new(), gap).is_empty());
}

#[test]
fn search_right_counts_edges_at_or_below() {
    let edges = bits(&[0.0, 1.0, 2.0, 2.0, 3.0, 9.0]);
    assert_eq!(search_right(&edges, 0.5f64.to_bits()), 0);
    assert_eq!(search_right(&edges, 1.0f64.to_bits()), 1);
    assert_eq!(search_right(&edges, 2.0f64.to_bits()), 3);
    assert_eq!(search_right(&edges, 100.0f64.to_bits()), 4);
    assert_eq!(search_right(&edges, f64::NAN.to_bits()), 0);
}

#[test]
fn bin_code_clips_to_last_bin() {
    let edges = bits(&[0.0, 1.0, 2.0, 3.0]);
    assert_eq!(bin_code(&edges, 2, 2.5f64.to_bits()), 1);
    assert_eq!(bin_code(&bits(&[5.0]), 0, 7.0f64.to_bits()), 0);
}

#[test]
fn transform_is_monotone_on_sorted_edges() {
    let f = one_column(&[0.0, 1.0, 2.0, 3.0, 4.0]);
    let mut prev = 0;
    for k in 0..50 {
        let v = -1.0 + 0.13 * k as f64;
        let c = transform_row(&bits(&[v]), &f)[0];
        assert!(c >= prev && c < 4);
        prev = c;
    }
}

#[test]
fn onehot_row_basic() {
    let f = Fitted {
        n_bins: vec![3, 2],
        bin_edges: vec![bits(&[0.0, 1.0, 2.0, 3.0]), bits(&[0.0, 5.0, 10.0])],
    };
    let oh = onehot_row(&vec![1, 0], &f);
    assert_eq!(oh, vec![0, 1, 0, 1, 0]);
}

#[test]
fn onehot_skips_columns_without_bins() {
    let f = Fitted {
        n_bins: vec![2, 0, 3],
        bin_edges: vec![bits(&[0.0, 1.0, 2.0]), bits(&[4.0]), bits(&[0.0, 1.0, 2.0, 3.0])],
    };
    assert_eq!(onehot_row(&vec![1, 0, 2], &f), vec![0, 1, 0, 0, 1]);
}

#[test]
fn onehot_decodes_back_to_codes() {
    let f = Fitted {
        n_bins: vec![3, 1, 4],
        bin_edges: vec![
            bits(&[0.0, 1.0, 2.0, 3.0]),
            bits(&[f64::NEG_INFINITY, f64::INFINITY]),
            bits(&[0.0, 1.0, 2.0, 3.0, 4.0]),
        ],
    };
    let codes = vec![2usize, 0, 3];
    let oh = onehot_row(&codes, &f);
    let mut start = 0;
    for (j, &nb) in f.n_bins.iter().enumerate() {
        let block = &oh[start..start + nb];
        assert_eq!(block.iter().filter(|&&x| x == 1).count(), 1);
        assert_eq!(block.iter().position(|&x| x == 1), Some(codes[j]));
        start += nb;
    }
}

#[test]
fn push_column_keeps_one_more_edge_than_bins() {
    let mut f = Fitted::new();
    f.push_column(bits(&[0.0, 1.0, 2.0]));
    f.push_column(bits(&[3.0]));
    assert_eq!(f.n_bins, vec![2, 0]);
    assert_eq!(f.bin_edges.len(), 2);
}
