use rsomics_kbins::kbins::{QuantileMethod, Strategy};
use rsomics_kbins::options::{InputError, check_n_bins, check_values, contains_nan};
use rsomics_kbins::{EncodeArg, QuantileMethodArg, StrategyArg};

#[test]
fn n_bins_below_two_is_refused() {
    assert_eq!(check_n_bins(0), Err(InputError::TooFewBins));
    assert_eq!(check_n_bins(1), Err(InputError::TooFewBins));
    assert_eq!(check_n_bins(2), Ok(()));
    assert_eq!(check_n_bins(5), Ok(()));
}

#[test]
fn missing_values_are_refused() {
    let ok: Vec<u64> = [1.0f64, f64::INFINITY, -0.0].iter().map(|v| v.to_bits()).collect();
    let bad: Vec<u64> = [1.0f64, f64::NAN].iter().map(|v| v.to_bits()).collect();
    assert!(!contains_nan(&ok));
    assert!(contains_nan(&bad));
    assert_eq!(check_values(&ok), Ok(()));
    assert_eq!(check_values(&bad), Err(InputError::MissingValues));
}

#[test]
fn choices_name_strategies_and_methods() {
    assert_eq!(StrategyArg::Uniform.strategy(), Strategy::Uniform);
    assert_eq!(StrategyArg::Quantile.strategy(), Strategy::Quantile);
    assert_eq!(QuantileMethodArg::Linear.method(), QuantileMethod::Linear);
    assert_eq!(
        QuantileMethodArg::AveragedInvertedCdf.method(),
        QuantileMethod::AveragedInvertedCdf
    );
    assert_ne!(EncodeArg::Ordinal, EncodeArg::OnehotDense);
}
