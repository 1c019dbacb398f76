//! Verified building blocks of a gradient-boosting compute layer: row partitions,
//! histogram folds, pooled histogram slots, split bookkeeping and the tree growth driver.
//!
//! Every function works on plain values. Device buffers are modelled by the vectors that
//! hold their contents, and a double-precision number is carried by its bit pattern
//! ([`number::Real64`]).
pub mod bin_column;
pub mod dataset;
pub mod error;
pub mod fold;
pub mod gain;
pub mod kernels;
pub mod laws;
pub mod number;
pub mod stable;
pub mod text;
