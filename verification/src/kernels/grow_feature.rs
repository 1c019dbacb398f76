//! The features that a tree is grown on, and the per-feature layouts derived from them.
use crate::bin_column::BinColumn;
use crate::dataset::{BinType, MissingType};
use crate::gain::{GainConfig, SplitInfo};
use crate::kernels::data_partition::NumericRoute;
use crate::kernels::split_order;
use crate::number::Real64;
use vstd::prelude::*;

verus! {

/// One feature column of a growth.
#[derive(Debug, Clone)]
pub struct GrowFeature {
    /// The bin of every row.
    pub bins: BinColumn,
    /// How many bins the feature has.
    pub num_bin: u32,
    /// How many leading bins a compacted histogram leaves out.
    pub offset: i32,
    /// The first stored bin.
    pub min_bin: u32,
    /// The last stored bin.
    pub max_bin: u32,
    /// The bin of the value zero.
    pub default_bin: u32,
    /// The bin that most rows have.
    pub most_freq_bin: u32,
    pub missing_type: MissingType,
    /// The largest value of each bin.
    pub bin_upper_bound: Vec<Real64>,
    /// The index that the tree records for the feature.
    pub real_feature_index: i32,
    pub bin_type: BinType,
    /// The category of each bin, of a categorical feature.
    pub bin_to_category: Vec<i32>,
    pub cat_smooth: Real64,
    pub cat_l2: Real64,
    pub max_cat_threshold: i32,
    pub max_cat_to_onehot: i32,
    pub min_data_per_group: i32,
}

/// One feature of a batched split scan.
#[derive(Clone, Copy, Debug, PartialEq, Eq, Structural)]
pub struct BatchedSplitFeature {
    /// Where the feature's cells start in the leaf's histogram.
    pub slot_off: usize,
    pub num_bin: u32,
    pub offset: i32,
    pub default_bin: u32,
    pub most_freq_bin: u32,
    /// The scan leaves the zero bin out.
    pub skip_default_bin: bool,
    /// The last bin holds the missing values.
    pub na_as_missing: bool,
    /// The scan also runs from the left.
    pub run_forward: bool,
}

impl GrowFeature {
    pub open spec fn is_categorical(&self) -> bool {
        self.bin_type == BinType::Categorical
    }

    /// A zero-missing feature with more than two bins: it is scanned in both directions
    /// without its zero bin.
    pub open spec fn scans_both_ways(&self) -> bool {
        self.num_bin > 2 && self.missing_type == MissingType::Zero
    }

    /// A feature with more than two bins whose last bin is the missing one: it is not scanned.
    pub open spec fn has_na_bin(&self) -> bool {
        self.num_bin > 2 && self.missing_type == MissingType::NaN
    }

    /// The first bin that a partition of this feature stores.
    pub open spec fn spec_partition_min_bin(&self) -> int {
        self.min_bin + (if self.offset > 0 { self.offset as int } else { 0int })
    }

    /// The route of a numeric split of this feature.
    pub open spec fn route(&self, best: SplitInfo) -> NumericRoute {
        NumericRoute {
            min_bin: self.spec_partition_min_bin() as u32,
            max_bin: self.max_bin,
            default_bin: self.default_bin,
            most_freq_bin: self.most_freq_bin,
            missing_type: self.missing_type.spec_code(),
            default_left: best.default_left,
            threshold: best.threshold,
        }
    }

    /// The layout of this feature for a batched scan, at cell `slot_off`.
    pub open spec fn spec_batched(&self, slot_off: usize) -> BatchedSplitFeature {
        BatchedSplitFeature {
            slot_off,
            num_bin: self.num_bin,
            offset: self.offset,
            default_bin: self.default_bin,
            most_freq_bin: self.most_freq_bin,
            skip_default_bin: self.scans_both_ways(),
            na_as_missing: self.has_na_bin(),
            run_forward: self.scans_both_ways(),
        }
    }

    /// The layout of this feature for a batched scan, at cell `slot_off`.
    pub fn batched(&self, slot_off: usize) -> (b: BatchedSplitFeature)
        ensures
            b == self.spec_batched(slot_off),
    {
        let both_ways = self.num_bin > 2 && self.missing_type == MissingType::Zero;
        BatchedSplitFeature {
            slot_off,
            num_bin: self.num_bin,
            offset: self.offset,
            default_bin: self.default_bin,
            most_freq_bin: self.most_freq_bin,
            skip_default_bin: both_ways,
            na_as_missing: self.num_bin > 2 && self.missing_type == MissingType::NaN,
            run_forward: both_ways,
        }
    }

    /// The first bin that a partition of this feature stores.
    pub fn partition_min_bin(&self) -> (b: u32)
        requires
            self.spec_partition_min_bin() <= u32::MAX,
        ensures
            b == self.spec_partition_min_bin(),
    {
        if self.offset > 0 {
            self.min_bin + self.offset as u32
        } else {
            self.min_bin
        }
    }
}

/// The configuration of a categorical feature's split search: the feature's own categorical
/// settings over the common ones.
pub fn categorical_feature_config(base: &GainConfig, f: &GrowFeature) -> (c: GainConfig)
    ensures
        c == (GainConfig {
            cat_l2: f.cat_l2,
            cat_smooth: f.cat_smooth,
            max_cat_threshold: f.max_cat_threshold,
            max_cat_to_onehot: f.max_cat_to_onehot,
            min_data_per_group: f.min_data_per_group,
            ..*base
        }),
{
    let mut c = *base;
    c.cat_l2 = f.cat_l2;
    c.cat_smooth = f.cat_smooth;
    c.max_cat_threshold = f.max_cat_threshold;
    c.max_cat_to_onehot = f.max_cat_to_onehot;
    c.min_data_per_group = f.min_data_per_group;
    c
}

/// The permissive configuration that growth is tried out under: any leaf with a row may be
/// split, without penalties.
pub fn proving_slice_config() -> (c: GainConfig)
    ensures
        c == (GainConfig {
            min_data_in_leaf: 1,
            min_sum_hessian_in_leaf: Real64::spec_zero(),
            ..GainConfig::spec_default()
        }),
{
    let mut c = GainConfig::default();
    c.min_data_in_leaf = 1;
    c.min_sum_hessian_in_leaf = Real64::zero();
    c.max_delta_step = Real64::zero();
    c.lambda_l1 = Real64::zero();
    c.lambda_l2 = Real64::zero();
    c.min_gain_to_split = Real64::zero();
    c.path_smooth = Real64::zero();
    c
}

/// How many histogram cells the first `n` features take, two per bin.
pub open spec fn cells_before(features: Seq<GrowFeature>, n: int) -> int
    decreases n,
{
    if n <= 0 {
        0
    } else {
        cells_before(features, n - 1) + 2 * features[n - 1].num_bin
    }
}

/// More features take at least as many cells.
pub proof fn cells_before_monotone(features: Seq<GrowFeature>, i: int, j: int)
    requires
        0 <= i <= j,
    ensures
        0 <= cells_before(features, i) <= cells_before(features, j),
    decreases j,
{
    if i < j {
        cells_before_monotone(features, i, j - 1);
    } else if i > 0 {
        cells_before_monotone(features, i - 1, j - 1);
    }
}

/// The histogram regions of the features lie one behind the other: no two overlap.
pub proof fn feature_regions_are_disjoint(features: Seq<GrowFeature>, i: int, j: int)
    requires
        0 <= i < j < features.len(),
    ensures
        cells_before(features, i) + 2 * features[i].num_bin <= cells_before(features, j),
{
    cells_before_monotone(features, i + 1, j);
}

/// Where each feature's cells start in a leaf's histogram, and how many cells there are.
pub fn slot_offsets(features: &[GrowFeature]) -> (r: (Vec<usize>, usize))
    requires
        cells_before(features@, features@.len() as int) <= usize::MAX,
    ensures
        r.0@.len() == features@.len(),
        forall|i: int| 0 <= i < features@.len() ==> #[trigger] r.0@[i] == cells_before(features@, i),
        r.1 == cells_before(features@, features@.len() as int),
{
    let mut slot_off: Vec<usize> = Vec::with_capacity(features.len());
    let mut hist_len: usize = 0;
    let mut i: usize = 0;
    while i < features.len()
        invariant
            i <= features@.len(),
            cells_before(features@, features@.len() as int) <= usize::MAX,
            hist_len == cells_before(features@, i as int),
            slot_off@.len() == i,
            forall|k: int| 0 <= k < i ==> #[trigger] slot_off@[k] == cells_before(features@, k),
        decreases features@.len() - i,
    {
        proof {
            cells_before_monotone(features@, i + 1, features@.len() as int);
        }
        slot_off.push(hist_len);
        hist_len = hist_len + 2 * features[i].num_bin as usize;
        i += 1;
    }
    (slot_off, hist_len)
}

/// The batched layout of every feature.
pub fn batched_features(features: &[GrowFeature], slot_off: &[usize]) -> (feats: Vec<BatchedSplitFeature>)
    requires
        slot_off@.len() == features@.len(),
    ensures
        feats@.len() == features@.len(),
        forall|i: int|
            0 <= i < features@.len() ==> #[trigger] feats@[i] == features@[i].spec_batched(slot_off@[i]),
{
    let mut feats: Vec<BatchedSplitFeature> = Vec::with_capacity(features.len());
    let mut i: usize = 0;
    while i < features.len()
        invariant
            i <= features@.len(),
            slot_off@.len() == features@.len(),
            feats@.len() == i,
            forall|k: int| 0 <= k < i ==> #[trigger] feats@[k] == features@[k].spec_batched(slot_off@[k]),
        decreases features@.len() - i,
    {
        feats.push(features[i].batched(slot_off[i]));
        i += 1;
    }
    feats
}

/// The real index of every feature.
pub open spec fn real_indices(features: Seq<GrowFeature>) -> Seq<i32> {
    Seq::new(features.len(), |i: int| features[i].real_feature_index)
}

/// The real index of every feature.
pub fn real_feature_indices(features: &[GrowFeature]) -> (reals: Vec<i32>)
    ensures
        reals@ == real_indices(features@),
{
    let mut reals: Vec<i32> = Vec::with_capacity(features.len());
    let mut i: usize = 0;
    while i < features.len()
        invariant
            i <= features@.len(),
            reals@.len() == i,
            forall|k: int| 0 <= k < i ==> #[trigger] reals@[k] == features@[k].real_feature_index,
        decreases features@.len() - i,
    {
        reals.push(features[i].real_feature_index);
        i += 1;
    }
    assert(reals@ =~= real_indices(features@));
    reals
}

/// The real index of the feature at a position, -1 where the position is negative.
pub fn real_feat_of(features: &[GrowFeature], fpos: i32) -> (feat: i32)
    requires
        fpos < features@.len(),
    ensures
        feat == split_order::held_feature(real_indices(features@), fpos as int),
{
    if fpos < 0 {
        -1
    } else {
        features[fpos as usize].real_feature_index
    }
}

/// Whether any of the first `n` features is categorical.
pub open spec fn any_categorical(features: Seq<GrowFeature>, n: int) -> bool {
    exists|i: int| 0 <= i < n && (#[trigger] features[i]).is_categorical()
}

/// Whether any feature is categorical.
pub fn has_categorical(features: &[GrowFeature]) -> (r: bool)
    ensures
        r == any_categorical(features@, features@.len() as int),
{
    let mut i: usize = 0;
    while i < features.len()
        invariant
            i <= features@.len(),
            !any_categorical(features@, i as int),
        decreases features@.len() - i,
    {
        if features[i].bin_type == BinType::Categorical {
            assert(features@[i as int].is_categorical());
            return true;
        }
        i += 1;
    }
    false
}

/// The widest category list that a categorical feature among the first `n` may have, at least
/// one; 0 where there is no categorical feature.
pub open spec fn cat_width(features: Seq<GrowFeature>, n: int) -> int
    decreases n,
{
    if n <= 0 {
        0
    } else {
        let rest = cat_width(features, n - 1);
        let own = if features[n - 1].max_cat_threshold > 1 {
            features[n - 1].max_cat_threshold as int
        } else {
            1
        };
        if features[n - 1].is_categorical() && own > rest {
            own
        } else {
            rest
        }
    }
}

/// How many categories the split records of a growth have room for, `None` where no feature
/// is categorical.
pub fn cat_slab_width(features: &[GrowFeature]) -> (r: Option<usize>)
    ensures
        r is Some <==> any_categorical(features@, features@.len() as int),
        r matches Some(w) ==> w == cat_width(features@, features@.len() as int),
{
    let mut width: usize = 0;
    let mut found = false;
    let mut i: usize = 0;
    while i < features.len()
        invariant
            i <= features@.len(),
            width == cat_width(features@, i as int),
            found == any_categorical(features@, i as int),
        decreases features@.len() - i,
    {
        if features[i].bin_type == BinType::Categorical {
            assert(features@[i as int].is_categorical());
            let threshold: i32 = features[i].max_cat_threshold;
            let own: usize = if threshold > 1 {
                threshold as usize
            } else {
                1
            };
            if own > width {
                width = own;
            }
            found = true;
        }
        i += 1;
    }
    if found {
        Some(width)
    } else {
        None
    }
}

/// Which features a cross-feature argmax leaves out.
pub open spec fn na_flags(feats: Seq<BatchedSplitFeature>) -> Seq<bool> {
    Seq::new(feats.len(), |i: int| feats[i].na_as_missing)
}

/// Every position is left out or holds no split.
pub open spec fn none_admissible(splits: Seq<SplitInfo>, skip: Seq<bool>) -> bool {
    forall|k: int|
        0 <= k < splits.len() ==> skip[k] || !split_order::spec_admissible(#[trigger] splits[k])
}

/// The winning candidate over the features of one leaf and its position, -1 where there is
/// none. Features whose last bin is the missing one do not take part, and neither does a
/// candidate that is no split: where nothing else is left, the result is no split at -1.
pub fn argmax_over_resident_splits(
    splits: &[SplitInfo],
    feats: &[BatchedSplitFeature],
    real_feats: &[i32],
) -> (r: (SplitInfo, i32))
    requires
        splits@.len() <= i32::MAX,
        feats@.len() >= splits@.len(),
        real_feats@.len() >= splits@.len(),
    ensures
        r.1 == split_order::winner(splits@, na_flags(feats@), real_feats@, splits@.len() as int),
        r.0 == split_order::held(splits@, r.1 as int),
        none_admissible(splits@, na_flags(feats@)) ==> r.1 == -1 && r.0 == SplitInfo::spec_none(),
{
    let mut best = SplitInfo::none();
    let mut best_fpos: i32 = -1;
    let mut best_real: i32 = -1;
    let mut fpos: usize = 0;
    while fpos < splits.len()
        invariant
            fpos <= splits@.len(),
            splits@.len() <= i32::MAX,
            feats@.len() >= splits@.len(),
            real_feats@.len() >= splits@.len(),
            best_fpos == split_order::winner(splits@, na_flags(feats@), real_feats@, fpos as int),
            best == split_order::held(splits@, best_fpos as int),
            best_real == split_order::held_feature(real_feats@, best_fpos as int),
        decreases splits@.len() - fpos,
    {
        if !feats[fpos].na_as_missing {
            let feat: i32 = real_feats[fpos];
            if split_order::admissible(&splits[fpos]) && split_order::split_gt(
                &splits[fpos],
                feat,
                &best,
                best_real,
            ) {
                best = splits[fpos];
                best_fpos = fpos as i32;
                best_real = feat;
            }
        }
        fpos += 1;
    }
    proof {
        split_order::nobody_wins_iff_none_is_admissible(
            splits@,
            na_flags(feats@),
            real_feats@,
            splits@.len() as int,
        );
    }
    (best, best_fpos)
}

/// The same argmax with the real indices read from the features themselves.
pub fn argmax_over_splits(
    splits: &[SplitInfo],
    feats: &[BatchedSplitFeature],
    features: &[GrowFeature],
) -> (r: (SplitInfo, i32))
    requires
        splits@.len() <= i32::MAX,
        feats@.len() >= splits@.len(),
        features@.len() >= splits@.len(),
    ensures
        r.1 == split_order::winner(
            splits@,
            na_flags(feats@),
            real_indices(features@),
            splits@.len() as int,
        ),
        r.0 == split_order::held(splits@, r.1 as int),
        none_admissible(splits@, na_flags(feats@)) ==> r.1 == -1 && r.0 == SplitInfo::spec_none(),
{
    let ghost reals = real_indices(features@);
    let mut best = SplitInfo::none();
    let mut best_fpos: i32 = -1;
    let mut best_real: i32 = -1;
    let mut fpos: usize = 0;
    while fpos < splits.len()
        invariant
            fpos <= splits@.len(),
            splits@.len() <= i32::MAX,
            feats@.len() >= splits@.len(),
            features@.len() >= splits@.len(),
            reals == real_indices(features@),
            best_fpos == split_order::winner(splits@, na_flags(feats@), reals, fpos as int),
            best == split_order::held(splits@, best_fpos as int),
            best_real == split_order::held_feature(reals, best_fpos as int),
        decreases splits@.len() - fpos,
    {
        if !feats[fpos].na_as_missing {
            let feat: i32 = features[fpos].real_feature_index;
            if split_order::admissible(&splits[fpos]) && split_order::split_gt(
                &splits[fpos],
                feat,
                &best,
                best_real,
            ) {
                best = splits[fpos];
                best_fpos = fpos as i32;
                best_real = feat;
            }
        }
        fpos += 1;
    }
    proof {
        split_order::nobody_wins_iff_none_is_admissible(
            splits@,
            na_flags(feats@),
            reals,
            splits@.len() as int,
        );
    }
    (best, best_fpos)
}

} // verus!
