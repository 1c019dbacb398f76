//! The tasks of a split search, one or two per feature, and the rounding by which row counts are
//! recovered from hessian sums.
use crate::dataset::MissingType;
use crate::error::ComputeError;
use crate::kernels::split_info::SplitScalars;
use crate::number;
use crate::number::Real64;
use vstd::arithmetic::power2;
use vstd::prelude::*;

verus! {

/// The search of one feature in one direction.
#[derive(Debug, Clone, Copy, PartialEq, Eq, Structural)]
pub struct SplitFindTask {
    pub inner_feature_index: i32,
    /// The bins are scanned from the right.
    pub reverse: bool,
    /// The zero bin is left out.
    pub skip_default_bin: bool,
    /// The last bin holds the missing values.
    pub na_as_missing: bool,
    /// Missing values go left in a split found by this scan.
    pub assume_out_default_left: bool,
    pub is_categorical: bool,
    /// Each category is tried against all others.
    pub is_one_hot: bool,
    /// Where the feature's cells start in the histogram.
    pub hist_offset: u32,
    /// 1 where the most frequent bin is bin 0, which is not stored; else 0.
    pub mfb_offset: u8,
    pub num_bin: u32,
    pub default_bin: u32,
    /// The only threshold to try, -1 for all.
    pub rand_threshold: i32,
}

/// What the tasks of a feature depend on.
#[derive(Debug, Clone, Copy, PartialEq, Eq, Structural)]
pub struct FeatureMeta {
    pub inner_feature_index: i32,
    pub num_bin: u32,
    pub missing_type: MissingType,
    pub is_categorical: bool,
    /// The most bins of a categorical feature whose categories are tried one by one.
    pub max_cat_to_onehot: i32,
    pub hist_offset: u32,
    pub mfb_offset: u8,
    pub default_bin: u32,
    pub rand_threshold: i32,
}

/// The leaf totals and limits that a task is evaluated under.
#[derive(Debug, Clone, Copy, PartialEq, Eq, Structural)]
pub struct Stage1Scalars {
    pub use_l1: bool,
    pub use_smoothing: bool,
    /// One random threshold per task is tried.
    pub use_rand: bool,
    /// The tasks are those of the larger child.
    pub is_larger: bool,
    pub min_data_in_leaf: i32,
    pub min_sum_hessian_in_leaf: Real64,
    pub lambda_l1: Real64,
    pub lambda_l2: Real64,
    pub min_gain_to_split: Real64,
    pub path_smooth: Real64,
    pub parent_output: Real64,
    pub sum_gradient: Real64,
    pub sum_hessian: Real64,
    pub num_data: i32,
    pub parent_gain: Real64,
    pub rng_seed: i32,
}

impl FeatureMeta {
    /// Whether the feature is searched in both directions: it has more than two bins, it has
    /// missing values, and its bins are ordered.
    pub open spec fn is_searched_both_ways(self) -> bool {
        self.num_bin > 2 && self.missing_type != MissingType::NoMissing && !self.is_categorical
    }

    /// One of the two tasks of a feature that is searched in both directions. The side of missing
    /// values is the side that the scan leaves for last.
    pub open spec fn paired_task(self, reverse: bool) -> SplitFindTask {
        SplitFindTask {
            inner_feature_index: self.inner_feature_index,
            reverse,
            skip_default_bin: self.missing_type == MissingType::Zero,
            na_as_missing: self.missing_type == MissingType::NaN,
            assume_out_default_left: reverse,
            is_categorical: false,
            is_one_hot: false,
            hist_offset: self.hist_offset,
            mfb_offset: self.mfb_offset,
            num_bin: self.num_bin,
            default_bin: self.default_bin,
            rand_threshold: self.rand_threshold,
        }
    }

    /// The only task of any other feature: from the right for ordered bins, from the left for
    /// categories. Missing values go left unless they have a bin of their own.
    pub open spec fn single_task(self) -> SplitFindTask {
        SplitFindTask {
            inner_feature_index: self.inner_feature_index,
            reverse: !self.is_categorical,
            skip_default_bin: false,
            na_as_missing: false,
            assume_out_default_left: self.missing_type != MissingType::NaN && !self.is_categorical,
            is_categorical: self.is_categorical,
            is_one_hot: self.is_categorical && (self.num_bin as i32) <= self.max_cat_to_onehot,
            hist_offset: self.hist_offset,
            mfb_offset: self.mfb_offset,
            num_bin: self.num_bin,
            default_bin: self.default_bin,
            rand_threshold: self.rand_threshold,
        }
    }

    /// The tasks of the feature, in their order.
    pub open spec fn tasks(self) -> Seq<SplitFindTask> {
        if self.is_searched_both_ways() {
            seq![self.paired_task(false), self.paired_task(true)]
        } else {
            seq![self.single_task()]
        }
    }
}

/// The tasks of the first `n` features, one feature behind the other.
pub open spec fn tasks_of(features: Seq<FeatureMeta>, n: int) -> Seq<SplitFindTask>
    decreases n,
{
    if n <= 0 {
        Seq::empty()
    } else {
        tasks_of(features, n - 1) + features[n - 1].tasks()
    }
}

/// The tasks of all features, one feature behind the other.
pub fn build_split_find_tasks(features: &[FeatureMeta]) -> (tasks: Vec<SplitFindTask>)
    ensures
        tasks@ == tasks_of(features@, features@.len() as int),
{
    let mut tasks: Vec<SplitFindTask> = Vec::new();
    let mut i: usize = 0;
    while i < features.len()
        invariant
            i <= features@.len(),
            tasks@ == tasks_of(features@, i as int),
        decreases features@.len() - i,
    {
        let f: FeatureMeta = features[i];
        let ghost before = tasks@;
        if f.num_bin > 2 && f.missing_type != MissingType::NoMissing && !f.is_categorical {
            let skip_default_bin: bool = f.missing_type == MissingType::Zero;
            let na_as_missing: bool = f.missing_type == MissingType::NaN;
            let forward = SplitFindTask {
                inner_feature_index: f.inner_feature_index,
                reverse: false,
                skip_default_bin,
                na_as_missing,
                assume_out_default_left: false,
                is_categorical: false,
                is_one_hot: false,
                hist_offset: f.hist_offset,
                mfb_offset: f.mfb_offset,
                num_bin: f.num_bin,
                default_bin: f.default_bin,
                rand_threshold: f.rand_threshold,
            };
            tasks.push(forward);
            tasks.push(SplitFindTask { reverse: true, assume_out_default_left: true, ..forward });
        } else {
            tasks.push(
                SplitFindTask {
                    inner_feature_index: f.inner_feature_index,
                    reverse: !f.is_categorical,
                    skip_default_bin: false,
                    na_as_missing: false,
                    assume_out_default_left: f.missing_type != MissingType::NaN && !f.is_categorical,
                    is_categorical: f.is_categorical,
                    is_one_hot: f.is_categorical && (f.num_bin as i32) <= f.max_cat_to_onehot,
                    hist_offset: f.hist_offset,
                    mfb_offset: f.mfb_offset,
                    num_bin: f.num_bin,
                    default_bin: f.default_bin,
                    rand_threshold: f.rand_threshold,
                },
            );
        }
        assert(tasks@ =~= before + f.tasks());
        i += 1;
    }
    tasks
}

/// Every feature has one task or two, and the side that its tasks give to missing values does not
/// depend on the direction alone: a feature with two bins whose last one is the missing bin is
/// scanned from the right and sends missing values right.
pub proof fn default_side_is_not_the_direction(f: FeatureMeta)
    ensures
        1 <= f.tasks().len() <= 2,
        f.num_bin <= 2 && f.missing_type == MissingType::NaN && !f.is_categorical ==> f.tasks()
            == seq![f.single_task()] && f.single_task().reverse && !f.single_task().assume_out_default_left,
        f.is_categorical ==> f.tasks() == seq![f.single_task()] && !f.single_task().reverse
            && !f.single_task().assume_out_default_left,
{
}

/// The weight of the lowest bit above a number's fraction.
pub const FRACTION_WEIGHT: u64 = 0x10_0000_0000_0000;

/// The integer that, scaled by a power of two, is the magnitude of a number.
pub open spec fn mantissa(x: Real64) -> int {
    if x.magnitude() < FRACTION_WEIGHT {
        x.magnitude()
    } else {
        x.magnitude() % (FRACTION_WEIGHT as int) + FRACTION_WEIGHT
    }
}

/// How many times the mantissa of a number is to be halved to give its magnitude; negative where
/// it is to be doubled.
pub open spec fn halvings(x: Real64) -> int {
    if x.magnitude() < FRACTION_WEIGHT {
        1074
    } else {
        1075 - x.magnitude() / (FRACTION_WEIGHT as int)
    }
}

/// The nearest integer to `m / p`, the even one of two that are equally near.
pub open spec fn nearest_even(m: int, p: int) -> int {
    let q = m / p;
    let r = m % p;
    if 2 * r > p || (2 * r == p && q % 2 == 1) {
        q + 1
    } else {
        q
    }
}

/// The magnitude of a number, rounded to the nearest integer.
pub open spec fn rounded_magnitude(x: Real64) -> int {
    if halvings(x) <= 0 {
        mantissa(x) * power2::pow2((-halvings(x)) as nat)
    } else {
        nearest_even(mantissa(x), power2::pow2(halvings(x) as nat) as int)
    }
}

/// A 32-bit number for a rounded one: the nearest that there is.
pub open spec fn saturated(v: int) -> int {
    if v > i32::MAX {
        i32::MAX as int
    } else if v < i32::MIN {
        i32::MIN as int
    } else {
        v
    }
}

/// The nearest integer to a number, the even one of two that are equally near, as a 32-bit number;
/// 0 where it is no number.
pub open spec fn count_of(x: Real64) -> int {
    if x.spec_is_nan() {
        0
    } else if x.bits >= number::SIGN_BIT {
        saturated(-rounded_magnitude(x))
    } else {
        saturated(rounded_magnitude(x))
    }
}

/// A power of two.
fn power_of_two(e: u64) -> (p: u64)
    requires
        e < 64,
    ensures
        p == power2::pow2(e as nat),
{
    proof {
        power2::lemma2_to64();
    }
    let mut p: u64 = 1;
    let mut i: u64 = 0;
    while i < e
        invariant
            i <= e,
            e < 64,
            p == power2::pow2(i as nat),
            power2::pow2(64) == 0x1_0000_0000_0000_0000,
        decreases e - i,
    {
        proof {
            power2::lemma_pow2_unfold((i + 1) as nat);
            power2::lemma_pow2_strictly_increases((i + 1) as nat, 64);
        }
        p = 2 * p;
        i += 1;
    }
    p
}

/// The mantissa of a number and how many times it is to be halved, at most 64 times: from there on
/// the magnitude rounds to 0 either way. `None` where the magnitude is at least two to the 52nd.
fn split_number(x: Real64) -> (r: Option<(u64, u64)>)
    requires
        !x.spec_is_nan(),
    ensures
        match r {
            Some((m, h)) => {
                &&& m == mantissa(x)
                &&& m < 2 * FRACTION_WEIGHT
                &&& 0 < h <= 64
                &&& halvings(x) > 0
                &&& h < 64 ==> h == halvings(x)
                &&& h == 64 ==> halvings(x) >= 64
            },
            None => halvings(x) <= 0 && mantissa(x) >= FRACTION_WEIGHT,
        },
{
    let magnitude: u64 = if x.bits >= number::SIGN_BIT {
        x.bits - number::SIGN_BIT
    } else {
        x.bits
    };
    if magnitude < FRACTION_WEIGHT {
        return Some((magnitude, 64));
    }
    let m: u64 = magnitude % FRACTION_WEIGHT + FRACTION_WEIGHT;
    let biased: u64 = magnitude / FRACTION_WEIGHT;
    if biased >= 1075 {
        return None;
    }
    let h: u64 = 1075 - biased;
    if h < 64 {
        Some((m, h))
    } else {
        Some((m, 64))
    }
}

/// A magnitude that is halved 64 times or more rounds to 0.
proof fn tiny_rounds_to_zero(x: Real64)
    requires
        halvings(x) >= 64,
    ensures
        rounded_magnitude(x) == 0,
        mantissa(x) / (power2::pow2(halvings(x) as nat) as int) == 0,
        mantissa(x) % (power2::pow2(halvings(x) as nat) as int) == mantissa(x),
        2 * mantissa(x) < power2::pow2(halvings(x) as nat),
{
    let p = power2::pow2(halvings(x) as nat) as int;
    power2::lemma2_to64();
    if halvings(x) > 64 {
        power2::lemma_pow2_strictly_increases(64, halvings(x) as nat);
    }
    let m = mantissa(x);
    assert(m / p == 0 && m % p == m) by (nonlinear_arith)
        requires
            0 <= m < p,
    ;
}

/// A magnitude of at least two to the 52nd is beyond every 32-bit number.
proof fn huge_saturates(x: Real64)
    requires
        halvings(x) <= 0,
        mantissa(x) >= FRACTION_WEIGHT,
    ensures
        rounded_magnitude(x) > i32::MAX + 1,
{
    let p = power2::pow2((-halvings(x)) as nat) as int;
    power2::lemma_pow2_pos((-halvings(x)) as nat);
    let m = mantissa(x);
    assert(m * p >= m) by (nonlinear_arith)
        requires
            m >= 0,
            p >= 1,
    ;
}

/// The nearest integer to a number, the even one of two that are equally near, as a 32-bit number.
pub fn round_ties_even(x: Real64) -> (count: i32)
    ensures
        count == count_of(x),
{
    if x.is_nan() {
        return 0;
    }
    let negative: bool = x.bits >= number::SIGN_BIT;
    let (m, h): (u64, u64) = match split_number(x) {
        None => {
            proof {
                huge_saturates(x);
            }
            return if negative {
                i32::MIN
            } else {
                i32::MAX
            };
        },
        Some(parts) => parts,
    };
    if h == 64 {
        proof {
            tiny_rounds_to_zero(x);
        }
        return 0;
    }
    let p: u64 = power_of_two(h);
    proof {
        power2::lemma2_to64();
        power2::lemma_pow2_unfold(h as nat);
        power2::lemma_pow2_pos((h - 1) as nat);
        quotient_is_bounded(m as int, p as int);
    }
    let q: u64 = m / p;
    let r: u64 = m % p;
    let nearest: u64 = if r > p / 2 || (r == p / 2 && q % 2 == 1) {
        q + 1
    } else {
        q
    };
    if negative {
        if nearest > 0x8000_0000 {
            i32::MIN
        } else {
            (-(nearest as i64)) as i32
        }
    } else if nearest > 0x7fff_ffff {
        i32::MAX
    } else {
        nearest as i32
    }
}

proof fn quotient_is_bounded(m: int, p: int)
    requires
        0 <= m,
        1 <= p,
    ensures
        0 <= m / p <= m,
        0 <= m % p < p,
        m == p * (m / p) + m % p,
{
    vstd::arithmetic::div_mod::lemma_fundamental_div_mod(m, p);
    assert(0 <= m / p <= m && 0 <= m % p < p) by (nonlinear_arith)
        requires
            0 <= m,
            1 <= p,
    ;
}

/// The same rounding by way of the integer below: one more where the number lies past the middle,
/// or in the middle above an odd integer.
pub fn round_ties_even_branchfree(x: Real64) -> (count: i32)
    ensures
        count == count_of(x),
{
    if x.is_nan() {
        return 0;
    }
    let negative: bool = x.bits >= number::SIGN_BIT;
    let (m, h): (u64, u64) = match split_number(x) {
        None => {
            proof {
                huge_saturates(x);
            }
            return if negative {
                i32::MIN
            } else {
                i32::MAX
            };
        },
        Some(parts) => parts,
    };
    if h == 64 {
        proof {
            tiny_rounds_to_zero(x);
        }
        // The integer below is 0 or -1, and the number lies within half of 0.
        return 0;
    }
    let p: u64 = power_of_two(h);
    proof {
        power2::lemma2_to64();
        power2::lemma_pow2_unfold(h as nat);
        power2::lemma_pow2_pos((h - 1) as nat);
        quotient_is_bounded(m as int, p as int);
    }
    let q: u64 = m / p;
    let r: u64 = m % p;
    let below: i64 = if negative {
        if r == 0 {
            -(q as i64)
        } else {
            -(q as i64) - 1
        }
    } else {
        q as i64
    };
    let past: u64 = if negative && r != 0 {
        p - r
    } else {
        r
    };
    let odd: bool = if below < 0 {
        (-below) % 2 == 1
    } else {
        below % 2 == 1
    };
    let nearest: i64 = if past > p / 2 || (past == p / 2 && odd) {
        below + 1
    } else {
        below
    };
    if nearest > i32::MAX as i64 {
        i32::MAX
    } else if nearest < i32::MIN as i64 {
        i32::MIN
    } else {
        nearest as i32
    }
}

/// The best split of one task: none, as no threshold is evaluated.
pub fn find_best_splits_stage1_on(
    hist: &[Real64],
    task: &SplitFindTask,
    scalars: &Stage1Scalars,
) -> (r: Result<SplitScalars, ComputeError>)
    ensures
        r == Ok::<SplitScalars, ComputeError>(SplitScalars::spec_empty()),
{
    Ok(SplitScalars::default())
}

/// The best split of one leaf over its tasks: none, as no task is evaluated.
pub fn sync_best_split_for_leaf_on(
    per_task: &[SplitScalars],
    num_tasks: usize,
    is_smaller: bool,
) -> (r: Result<SplitScalars, ComputeError>)
    ensures
        r == Ok::<SplitScalars, ComputeError>(SplitScalars::spec_empty()),
{
    Ok(SplitScalars::default())
}

/// The export of the best leaf: feature, threshold and side of missing values of the smaller and
/// of the larger child, the leaf that is split, and its number of categories. The leaf is -1: none
/// is split.
pub fn find_best_from_all_splits_on(per_leaf: &[SplitScalars], cur_num_leaves: usize) -> (r: Result<
    [i64; 8],
    ComputeError,
>)
    ensures
        r matches Ok(export) && export@ == seq![0i64, 0, 0, 0, 0, 0, -1i64, 0],
{
    let export: [i64; 8] = [0, 0, 0, 0, 0, 0, -1, 0];
    assert(export@ =~= seq![0i64, 0, 0, 0, 0, 0, -1i64, 0]);
    Ok(export)
}

} // verus!
