use std::cmp::Ordering;

use rsomics_kbins::binary64::{eq, is_nan, is_zero, le, lt, numeric, total_key, INFINITY, NEG_INFINITY};

fn b(x: f64) -> u64 {
    x.to_bits()
}

const SAMPLES: [f64; 12] = [
    f64::NEG_INFINITY,
    -1.5e300,
    -2.0,
    -1e-310,
    -0.0,
    0.0,
    1e-310,
    0.5,
    2.0,
    1.5e300,
    f64::INFINITY,
    f64::NAN,
];

#[test]
fn infinity_constants_match_hardware() {
    assert_eq!(INFINITY, f64::INFINITY.to_bits());
    assert_eq!(NEG_INFINITY, f64::NEG_INFINITY.to_bits());
}

#[test]
fn comparisons_match_hardware() {
    for &x in SAMPLES.iter() {
        for &y in SAMPLES.iter() {
            assert_eq!(le(b(x), b(y)), x <= y, "{x} <= {y}");
            assert_eq!(lt(b(x), b(y)), x < y, "{x} < {y}");
            assert_eq!(eq(b(x), b(y)), x == y, "{x} == {y}");
        }
    }
}

#[test]
fn total_key_orders_like_total_cmp() {
    let mut all: Vec<f64> = SAMPLES.to_vec();
    all.push(-f64::NAN);
    for &x in all.iter() {
        for &y in all.iter() {
            let ours = total_key(b(x)).cmp(&total_key(b(y)));
            assert_eq!(ours, x.total_cmp(&y), "{x} vs {y}");
        }
    }
    assert_eq!(total_key(b(-0.0)).cmp(&total_key(b(0.0))), Ordering::Less);
}

#[test]
fn nan_and_zero_classification() {
    assert!(is_nan(b(f64::NAN)));
    assert!(is_nan(b(-f64::NAN)));
    assert!(!is_nan(b(f64::INFINITY)));
    assert!(is_zero(b(0.0)) && is_zero(b(-0.0)));
    assert!(!is_zero(b(1e-310)));
    assert_eq!(numeric(b(-0.0)), numeric(b(0.0)));
}
