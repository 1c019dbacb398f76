//! Split candidates and the configuration that gains are computed under.
use crate::number::Real64;
use vstd::prelude::*;

verus! {

/// A split candidate of one leaf and feature.
#[derive(Clone, Copy, Debug, PartialEq, Eq, Structural)]
pub struct SplitInfo {
    /// The gain, negative infinity where there is no admissible split.
    pub gain: Real64,
    pub threshold: u32,
    pub default_left: bool,
    pub left_sum_gradient: Real64,
    pub left_sum_hessian: Real64,
    pub left_output: Real64,
    pub left_count: i32,
    pub right_sum_gradient: Real64,
    pub right_sum_hessian: Real64,
    pub right_output: Real64,
    pub right_count: i32,
}

impl SplitInfo {
    /// The candidate that stands for no split.
    pub open spec fn spec_none() -> SplitInfo {
        SplitInfo {
            gain: Real64::spec_neg_infinity(),
            threshold: 0,
            default_left: true,
            left_sum_gradient: Real64::spec_zero(),
            left_sum_hessian: Real64::spec_zero(),
            left_output: Real64::spec_zero(),
            left_count: 0,
            right_sum_gradient: Real64::spec_zero(),
            right_sum_hessian: Real64::spec_zero(),
            right_output: Real64::spec_zero(),
            right_count: 0,
        }
    }

    /// The candidate that stands for no split.
    pub fn none() -> (s: SplitInfo)
        ensures
            s == Self::spec_none(),
    {
        SplitInfo {
            gain: Real64::neg_infinity(),
            threshold: 0,
            default_left: true,
            left_sum_gradient: Real64::zero(),
            left_sum_hessian: Real64::zero(),
            left_output: Real64::zero(),
            left_count: 0,
            right_sum_gradient: Real64::zero(),
            right_sum_hessian: Real64::zero(),
            right_output: Real64::zero(),
            right_count: 0,
        }
    }
}

/// The bit pattern of 0.001.
pub const ONE_THOUSANDTH: u64 = 0x3f50_624d_d2f1_a9fc;

/// The bit pattern of 10.
pub const TEN: u64 = 0x4024_0000_0000_0000;

/// The constraints and penalties of a split search.
#[derive(Clone, Copy, Debug, PartialEq, Eq, Structural)]
pub struct GainConfig {
    pub min_data_in_leaf: i32,
    pub min_sum_hessian_in_leaf: Real64,
    pub max_delta_step: Real64,
    pub lambda_l1: Real64,
    pub lambda_l2: Real64,
    pub min_gain_to_split: Real64,
    pub path_smooth: Real64,
    pub cat_smooth: Real64,
    pub cat_l2: Real64,
    pub max_cat_threshold: i32,
    pub max_cat_to_onehot: i32,
    pub min_data_per_group: i32,
}

impl GainConfig {
    /// The configuration that is used where nothing else is asked for.
    pub open spec fn spec_default() -> GainConfig {
        GainConfig {
            min_data_in_leaf: 20,
            min_sum_hessian_in_leaf: (Real64 { bits: ONE_THOUSANDTH }),
            max_delta_step: Real64::spec_zero(),
            lambda_l1: Real64::spec_zero(),
            lambda_l2: Real64::spec_zero(),
            min_gain_to_split: Real64::spec_zero(),
            path_smooth: Real64::spec_zero(),
            cat_smooth: (Real64 { bits: TEN }),
            cat_l2: (Real64 { bits: TEN }),
            max_cat_threshold: 32,
            max_cat_to_onehot: 4,
            min_data_per_group: 100,
        }
    }

    /// Whether the L1 penalty is in force.
    pub fn use_l1(&self) -> (r: bool)
        ensures
            r == self.lambda_l1.spec_above(Real64::spec_zero()),
    {
        self.lambda_l1.above(Real64::zero())
    }
}

impl Default for GainConfig {
    fn default() -> (c: GainConfig)
        ensures
            c == GainConfig::spec_default(),
    {
        GainConfig {
            min_data_in_leaf: 20,
            min_sum_hessian_in_leaf: Real64 { bits: ONE_THOUSANDTH },
            max_delta_step: Real64::zero(),
            lambda_l1: Real64::zero(),
            lambda_l2: Real64::zero(),
            min_gain_to_split: Real64::zero(),
            path_smooth: Real64::zero(),
            cat_smooth: Real64 { bits: TEN },
            cat_l2: Real64 { bits: TEN },
            max_cat_threshold: 32,
            max_cat_to_onehot: 4,
            min_data_per_group: 100,
        }
    }
}

} // verus!
