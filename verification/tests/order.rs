use rsomics_kbins::order::{max_of, min_from, min_of, select_kth, sort_total};

fn bits(xs: &[f64]) -> Vec<u64> {
    xs.iter().map(|v| v.to_bits()).collect()
}

fn vals(xs: &[u64]) -> Vec<f64> {
    xs.iter().map(|&v| f64::from_bits(v)).collect()
}

#[test]
fn sort_matches_total_cmp_sort() {
    let col = [3.0f64, 1.0, 4.0, 1.0, 5.0, 9.0, 2.0, 6.0, -0.0, 0.0, -7.5];
    let mut expected = col.to_vec();
    expected.sort_unstable_by(f64::total_cmp);
    let got = sort_total(&bits(&col));
    assert_eq!(got, bits(&expected));
}

#[test]
fn sort_empty_and_single() {
    assert!(sort_total(&Vec::new()).is_empty());
    assert_eq!(sort_total(&bits(&[2.5])), bits(&[2.5]));
}

#[test]
fn min_max_skip_nan() {
    let col = bits(&[f64::NAN, 3.0, -1.0, f64::NAN, 8.0]);
    assert_eq!(f64::from_bits(min_of(&col)), -1.0);
    assert_eq!(f64::from_bits(max_of(&col)), 8.0);
    assert_eq!(f64::from_bits(min_from(&col, 3)), 8.0);
}

#[test]
fn min_max_of_empty_are_infinities() {
    assert_eq!(f64::from_bits(min_of(&Vec::new())), f64::INFINITY);
    assert_eq!(f64::from_bits(max_of(&Vec::new())), f64::NEG_INFINITY);
}

#[test]
fn select_kth_reads_order_statistics() {
    let col = bits(&[3.0, 1.0, 4.0, 1.0, 5.0, 9.0, 2.0, 6.0]);
    let mut xs = col.clone();
    let (a, b) = select_kth(&mut xs, 3, true);
    assert_eq!(vals(&[a, b]), vec![3.0, 4.0]);
    assert_eq!(xs[3], a);
    assert!(xs[..3].iter().all(|&v| f64::from_bits(v) <= 3.0));
    assert!(xs[4..].iter().all(|&v| f64::from_bits(v) >= 3.0));
    let (a, b) = select_kth(&mut col.clone(), 7, true);
    assert_eq!(vals(&[a, b]), vec![9.0, 9.0]);
    let (a, b) = select_kth(&mut col.clone(), 0, false);
    assert_eq!(vals(&[a, b]), vec![1.0, 1.0]);
}

#[test]
fn select_kth_reorders_in_place() {
    let mut xs = bits(&[2.0, 1.0]);
    let (a, _) = select_kth(&mut xs, 0, false);
    assert_eq!(f64::from_bits(a), 1.0);
    assert_eq!(xs, bits(&[1.0, 2.0]));
}
