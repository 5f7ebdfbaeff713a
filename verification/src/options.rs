//! Command-line choices and the checks made on a request before fitting.

use vstd::prelude::*;
use crate::binary64::{is_nan, spec_is_nan};
use crate::kbins::{QuantileMethod, Strategy};

verus! {

/// Bin strategy as chosen on the command line.
#[derive(Clone, Copy, Debug, PartialEq, Eq, Structural)]
pub enum StrategyArg {
    /// Equal-width bins per column.
    Uniform,
    /// Equal-frequency bins per column (quantile-based).
    Quantile,
}

/// Output encoding.
#[derive(Clone, Copy, Debug, PartialEq, Eq, Structural)]
pub enum EncodeArg {
    /// Integer bin index per cell.
    Ordinal,
    /// Each column expanded into `n_bins` indicator columns.
    OnehotDense,
}

/// Quantile method as chosen on the command line.
#[derive(Clone, Copy, Debug, PartialEq, Eq, Structural)]
pub enum QuantileMethodArg {
    /// `averaged_inverted_cdf` (Hyndman–Fan type 2).
    AveragedInvertedCdf,
    /// `linear` (Hyndman–Fan type 7).
    Linear,
}

impl StrategyArg {
    /// The strategy this choice names.
    pub fn strategy(self) -> (s: Strategy)
        ensures
            self == StrategyArg::Uniform ==> s == Strategy::Uniform,
            self == StrategyArg::Quantile ==> s == Strategy::Quantile,
    {
        match self {
            StrategyArg::Uniform => Strategy::Uniform,
            StrategyArg::Quantile => Strategy::Quantile,
        }
    }
}

impl QuantileMethodArg {
    /// The quantile method this choice names.
    pub fn method(self) -> (m: QuantileMethod)
        ensures
            self == QuantileMethodArg::AveragedInvertedCdf ==> m == QuantileMethod::AveragedInvertedCdf,
            self == QuantileMethodArg::Linear ==> m == QuantileMethod::Linear,
    {
        match self {
            QuantileMethodArg::AveragedInvertedCdf => QuantileMethod::AveragedInvertedCdf,
            QuantileMethodArg::Linear => QuantileMethod::Linear,
        }
    }
}

/// Why a request is refused before any fitting.
#[derive(Clone, Copy, Debug, PartialEq, Eq, Structural)]
pub enum InputError {
    /// Fewer than two bins were asked for.
    TooFewBins,
    /// The matrix holds a NaN (a missing value).
    MissingValues,
}

/// Some cell of `data` is a NaN.
pub open spec fn has_nan(data: Seq<u64>) -> bool {
    exists|i: int| 0 <= i < data.len() && spec_is_nan(#[trigger] data[i])
}

/// A bin count is accepted when it is at least 2.
pub fn check_n_bins(n_bins: usize) -> (r: Result<(), InputError>)
    ensures
        r is Ok <==> n_bins >= 2,
        r is Err ==> r == Err::<(), InputError>(InputError::TooFewBins),
{
    if n_bins < 2 {
        Err(InputError::TooFewBins)
    } else {
        Ok(())
    }
}

/// Whether any cell of `data` is a NaN.
pub fn contains_nan(data: &Vec<u64>) -> (r: bool)
    ensures
        r == has_nan(data@),
{
    let mut i: usize = 0;
    while i < data.len()
        invariant
            i <= data.len(),
            forall|k: int| 0 <= k < i ==> !spec_is_nan(#[trigger] data@[k]),
        decreases data.len() - i,
    {
        if is_nan(data[i]) {
            return true;
        }
        i = i + 1;
    }
    false
}

/// A matrix is accepted when it holds no NaN.
pub fn check_values(data: &Vec<u64>) -> (r: Result<(), InputError>)
    ensures
        r is Ok <==> !has_nan(data@),
        r is Err ==> r == Err::<(), InputError>(InputError::MissingValues),
{
    if contains_nan(data) {
        Err(InputError::MissingValues)
    } else {
        Ok(())
    }
}

} // verus!
