//! Quantile binning, weighted percentiles, row sampling and objective kernels
//! for histogram-based gradient boosting.
//!
//! - `data`: the numeric traits `MatrixData` and `FloatData`, and the
//!   column-major `Matrix`.
//! - `order`: the stable ascending order of a column, sorted and distinct
//!   values.
//! - `utils`: bisection, the bin of a value, weighted percentiles.
//! - `binning`: `bin_matrix`, which turns a matrix into bins, boundaries and
//!   counts.
//! - `objective`: the loss, gradient and hessian of log-loss and squared
//!   loss.
//! - `sampler`: uniform and gradient-based one-sided sampling of rows.
//! - `errors`: the error type.
//!
//! Every function is generic over the numeric type. The contracts speak of a
//! value through the model of `MatrixData`: whether it is a number, and its
//! place in the numeric order. What arithmetic returns is named, not
//! computed, so a contract such as that of `LogLoss::calc_grad` says which
//! operations of the type give the result, in which order.
//!
//! Two things are taken on trust: that a numeric type keeps the contracts of
//! the two traits, and what `sampler::draw_below` says of a draw from the
//! rand crate.
pub mod binning;
pub mod data;
pub mod errors;
pub mod objective;
pub mod order;
pub mod sampler;
pub mod utils;
