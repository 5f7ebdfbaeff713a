use rsomics_kbins::Fitted;
use rsomics_kbins::encode::{onehot_rows, ordinal_rows};

fn bits(xs: &[f64]) -> Vec<u64> {
    xs.iter().map(|v| v.to_bits()).collect()
}

fn fitted() -> Fitted {
    let mut f = Fitted::new();
    f.push_column(bits(&[0.0, 1.0, 2.0, 3.0]));
    f.push_column(bits(&[f64::NEG_INFINITY, f64::INFINITY]));
    f
}

#[test]
fn ordinal_rows_bin_each_cell() {
    let data = bits(&[0.5, 7.0, 2.5, 7.0, 1.0, 7.0]);
    let rows = ordinal_rows(&data, 3, 2, &fitted());
    assert_eq!(rows, vec![vec![0, 0], vec![2, 0], vec![1, 0]]);
}

#[test]
fn onehot_rows_expand_each_row() {
    let data = bits(&[0.5, 7.0, 2.5, 7.0]);
    let rows = onehot_rows(&data, 2, 2, &fitted());
    assert_eq!(rows, vec![vec![1, 0, 0, 1], vec![0, 0, 1, 1]]);
}
