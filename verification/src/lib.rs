//! Per-column binning of numeric matrices into ordinal bin codes, with the
//! `uniform` and `quantile` edge strategies of a k-bins discretizer.
//!
//! Matrix cells are carried as IEEE-754 binary64 bit patterns (`u64`): the
//! library orders, compares, sorts, selects and bins them exactly as the
//! hardware comparisons do, while the arithmetic that produces new values
//! (evenly spaced edges, midpoints, interpolation) is done by the caller.

pub mod binary64;
pub mod order;
pub mod quantile;
pub mod kbins;
pub mod onehot;
pub mod names;
pub mod encode;
pub mod options;
pub mod table;

pub use kbins::{Fitted, QuantileMethod, Strategy, transform_row};
pub use names::onehot_col_names;
pub use onehot::onehot_row;
pub use options::{EncodeArg, QuantileMethodArg, StrategyArg};
