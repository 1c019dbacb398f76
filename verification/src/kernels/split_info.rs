//! The record of one split, as the tree and the frontier store it.
use crate::number::Real64;
use vstd::prelude::*;

verus! {

/// One split record.
#[derive(Clone, Copy, Debug, PartialEq, Eq, Structural)]
pub struct SplitScalars {
    /// Whether the record holds a split at all.
    pub is_valid: bool,
    /// The leaf that is split.
    pub leaf_index: i32,
    pub gain: Real64,
    pub inner_feature_index: i32,
    pub threshold: u32,
    pub default_left: bool,
    pub left_sum_gradients: Real64,
    pub left_sum_hessians: Real64,
    pub left_sum_gh_quant: i64,
    pub left_count: i32,
    pub left_gain: Real64,
    pub left_value: Real64,
    pub right_sum_gradients: Real64,
    pub right_sum_hessians: Real64,
    pub right_sum_gh_quant: i64,
    pub right_count: i32,
    pub right_gain: Real64,
    pub right_value: Real64,
    /// How many categories a categorical split sends left; 0 for a numeric split.
    pub num_cat_threshold: i32,
}

impl SplitScalars {
    /// The record without a split: every number zero.
    pub open spec fn spec_empty() -> SplitScalars {
        SplitScalars {
            is_valid: false,
            leaf_index: 0,
            gain: Real64::spec_zero(),
            inner_feature_index: 0,
            threshold: 0,
            default_left: false,
            left_sum_gradients: Real64::spec_zero(),
            left_sum_hessians: Real64::spec_zero(),
            left_sum_gh_quant: 0,
            left_count: 0,
            left_gain: Real64::spec_zero(),
            left_value: Real64::spec_zero(),
            right_sum_gradients: Real64::spec_zero(),
            right_sum_hessians: Real64::spec_zero(),
            right_sum_gh_quant: 0,
            right_count: 0,
            right_gain: Real64::spec_zero(),
            right_value: Real64::spec_zero(),
            num_cat_threshold: 0,
        }
    }
}

impl Default for SplitScalars {
    fn default() -> (r: SplitScalars)
        ensures
            r == SplitScalars::spec_empty(),
    {
        SplitScalars {
            is_valid: false,
            leaf_index: 0,
            gain: Real64::zero(),
            inner_feature_index: 0,
            threshold: 0,
            default_left: false,
            left_sum_gradients: Real64::zero(),
            left_sum_hessians: Real64::zero(),
            left_sum_gh_quant: 0,
            left_count: 0,
            left_gain: Real64::zero(),
            left_value: Real64::zero(),
            right_sum_gradients: Real64::zero(),
            right_sum_hessians: Real64::zero(),
            right_sum_gh_quant: 0,
            right_count: 0,
            right_gain: Real64::zero(),
            right_value: Real64::zero(),
            num_cat_threshold: 0,
        }
    }
}

} // verus!
