//! How a feature is binned, and how rows are laid out by leaf.
use vstd::prelude::*;

verus! {

/// Which value of a feature stands for a missing one.
#[derive(Clone, Copy, Debug, PartialEq, Eq, Structural)]
pub enum MissingType {
    NoMissing,
    Zero,
    NaN,
}

/// Whether a feature's bins are ordered ranges or categories.
#[derive(Clone, Copy, Debug, PartialEq, Eq, Structural)]
pub enum BinType {
    Numerical,
    Categorical,
}

impl MissingType {
    /// The code of a missing type: 0 none, 1 zero, 2 not-a-number.
    pub open spec fn spec_code(self) -> u8 {
        match self {
            MissingType::NoMissing => 0,
            MissingType::Zero => 1,
            MissingType::NaN => 2,
        }
    }

    /// The code of a missing type: 0 none, 1 zero, 2 not-a-number.
    pub fn code(self) -> (c: u8)
        ensures
            c == self.spec_code(),
    {
        match self {
            MissingType::NoMissing => 0,
            MissingType::Zero => 1,
            MissingType::NaN => 2,
        }
    }
}

/// The rows of a tree grouped by leaf: leaf `l` owns `leaf_count[l]` entries of `indices`
/// from `leaf_begin[l]` on.
#[derive(Debug, Clone, PartialEq, Eq)]
pub struct LeafPartitionLayout {
    pub num_data: i32,
    pub indices: Vec<u32>,
    pub leaf_begin: Vec<i32>,
    pub leaf_count: Vec<i32>,
}

} // verus!
