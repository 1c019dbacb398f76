//! What the operations promise, over the values that go in and come out.
pub mod buffers;
pub mod builds;
pub mod categories;
pub mod growth;
pub mod histograms;
pub mod numbers;
pub mod operations;
pub mod refusals;
pub mod results;
pub mod routing;
pub mod rows;
pub mod settings;
pub mod splits;
pub mod steps;
pub mod sums;
