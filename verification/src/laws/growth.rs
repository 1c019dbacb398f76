//! Which leaf is split next, and how the leaves and their features are laid out.
use crate::error::ComputeError;
use crate::gain::SplitInfo;
use crate::kernels::fused_scan;
use crate::kernels::fused_scan::ScanPlan;
use crate::kernels::grow_driver;
use crate::kernels::grow_driver::{ChildPlan, GrowState, LeafState};
use crate::kernels::grow_feature;
use crate::kernels::grow_feature::{BatchedSplitFeature, GrowFeature};
use crate::kernels::grow_machine;
use crate::kernels::grow_machine::{GrowAction, GrowMachine, GrowPhase};
use crate::kernels::grow_resident;
use crate::kernels::resident_machine;
use crate::kernels::split_order;
use crate::number::Real64;
use vstd::prelude::*;

verus! {

/// A split with the greater gain comes first. Between splits of one gain the one of the lower feature
/// does, and a split of no feature comes last.
pub proof fn greater_gain_comes_first(a: SplitInfo, a_feat: i32, b: SplitInfo, b_feat: i32)
    requires
        !a.gain.spec_is_nan(),
        !b.gain.spec_is_nan(),
        -1 <= a_feat < i32::MAX,
        -1 <= b_feat < i32::MAX,
    ensures
        a.gain.spec_above(b.gain) ==> split_order::spec_split_gt(a, a_feat, b, b_feat),
        b.gain.spec_above(a.gain) ==> !split_order::spec_split_gt(a, a_feat, b, b_feat),
        !a.gain.spec_above(b.gain) && !b.gain.spec_above(a.gain) && 0 <= a_feat && 0 <= b_feat ==> (
        split_order::spec_split_gt(a, a_feat, b, b_feat) <==> a_feat < b_feat),
        !a.gain.spec_above(b.gain) && !b.gain.spec_above(a.gain) && 0 <= a_feat && b_feat == -1
            ==> split_order::spec_split_gt(a, a_feat, b, b_feat),
        !a.gain.spec_above(b.gain) && !b.gain.spec_above(a.gain) && a_feat == -1
            ==> !split_order::spec_split_gt(a, a_feat, b, b_feat),
{
}

/// The winner among candidates takes part, has a gain above minus infinity, and none that takes part
/// has a greater gain, nor the same gain and a lower feature, nor the same of both and an earlier
/// place. There is no winner only where no candidate that takes part has such a gain.
pub proof fn winner_has_the_greatest_gain(
    splits: Seq<SplitInfo>,
    skip: Seq<bool>,
    features: Seq<i32>,
    n: int,
    k: int,
)
    requires
        0 <= k < n <= splits.len(),
        forall|i: int| 0 <= i < n && !skip[i] ==> !(#[trigger] splits[i]).gain.spec_is_nan(),
        forall|i: int| 0 <= i < n ==> 0 <= #[trigger] features[i] < i32::MAX,
    ensures
        ({
            let w = split_order::winner(splits, skip, features, n);
            let open_to_win = !skip[k] && splits[k].gain.spec_above(Real64::spec_neg_infinity());
            &&& -1 <= w < n
            &&& w == -1 ==> !open_to_win
            &&& w >= 0 ==> !skip[w] && splits[w].gain.spec_above(Real64::spec_neg_infinity())
            &&& w >= 0 && !skip[k] ==> !splits[k].gain.spec_above(splits[w].gain)
            &&& w >= 0 && open_to_win && !splits[w].gain.spec_above(splits[k].gain) ==> features[w] <= features[k]
            &&& w >= 0 && open_to_win && !splits[w].gain.spec_above(splits[k].gain) && features[w] == features[k]
                ==> w <= k
        }),
{
    let w = split_order::winner(splits, skip, features, n);
    split_order::winner_takes_part(splits, skip, features, n);
    split_order::nobody_wins_iff_none_is_admissible(splits, skip, features, n);
    split_order::winner_is_unbeaten(splits, skip, features, n);
    assert(splits[k] == splits[k] && 0 <= features[k] < i32::MAX);
    if w >= 0 {
        assert(0 <= features[w] < i32::MAX);
        assert(!splits[w].gain.spec_is_nan());
    }
}

/// The leaf that is split next has a split with a gain above zero, and no leaf has a greater one. Of
/// leaves with the same gain it is the one of the lower feature, and of the same feature the first.
/// No leaf is split only where none has a gain above zero.
pub proof fn next_leaf_has_the_greatest_gain(leaves: Seq<LeafState>, reals: Seq<i32>, k: int)
    requires
        0 <= k < leaves.len(),
        forall|i: int| 0 <= i < leaves.len() ==> !(#[trigger] leaves[i]).best.gain.spec_is_nan(),
        forall|i: int| 0 <= i < leaves.len() ==> -1 <= (#[trigger] leaves[i]).best_fpos < reals.len(),
        forall|i: int|
            0 <= i < leaves.len() && (#[trigger] leaves[i]).best_fpos == -1 ==> !leaves[i].best.gain.spec_above(
                Real64::spec_zero(),
            ),
        forall|f: int| 0 <= f < reals.len() ==> 0 <= #[trigger] reals[f] < i32::MAX,
    ensures
        match grow_driver::next_leaf(leaves, reals) {
            None => !leaves[k].best.gain.spec_above(Real64::spec_zero()),
            Some(w) => {
                &&& 0 <= w < leaves.len()
                &&& leaves[w].best_fpos >= 0
                &&& leaves[w].best.gain.spec_above(Real64::spec_zero())
                &&& !leaves[k].best.gain.spec_above(leaves[w].best.gain)
                &&& !leaves[w].best.gain.spec_above(leaves[k].best.gain) ==> reals[leaves[w].best_fpos]
                    <= reals[leaves[k].best_fpos]
                &&& !leaves[w].best.gain.spec_above(leaves[k].best.gain) && reals[leaves[w].best_fpos]
                    == reals[leaves[k].best_fpos] ==> w <= k
            },
        },
{
    let bests = grow_driver::leaf_bests(leaves);
    let feats = grow_driver::leaf_feats(leaves, reals);
    let n = leaves.len() as int;
    let w = split_order::best_leaf(bests, feats, n);
    assert forall|i: int| 0 <= i < n implies !(#[trigger] bests[i]).gain.spec_is_nan() by {
        assert(!leaves[i].best.gain.spec_is_nan());
    }
    split_order::best_leaf_in_range(bests, feats, n);
    split_order::best_leaf_is_unbeaten(bests, feats, n);
    assert(bests[k] == leaves[k].best && bests[w] == leaves[w].best);
    assert(-1 <= leaves[k].best_fpos < reals.len() && -1 <= leaves[w].best_fpos < reals.len());
    assert(!leaves[k].best.gain.spec_is_nan() && !leaves[w].best.gain.spec_is_nan());
    if leaves[k].best_fpos >= 0 {
        assert(0 <= reals[leaves[k].best_fpos] < i32::MAX);
    }
    if leaves[w].best_fpos >= 0 {
        assert(0 <= reals[leaves[w].best_fpos] < i32::MAX);
    }
}

/// No leaf is picked where the tree has all its leaves; else it is the leaf that is split next.
pub proof fn growth_stops_at_the_leaf_limit(s: GrowState, features: Seq<GrowFeature>)
    ensures
        s.leaves.len() >= s.num_leaves ==> grow_machine::picked(s, features) is None,
        s.leaves.len() < s.num_leaves ==> grow_machine::picked(s, features) == grow_driver::next_leaf(
            s.leaves,
            features.map_values(|f: GrowFeature| f.real_feature_index),
        ),
{
    assert(grow_feature::real_indices(features) =~= features.map_values(
        |f: GrowFeature| f.real_feature_index,
    ));
}

/// A scan of a leaf sets the leaf's split and nothing else.
pub proof fn scan_sets_the_split_of_its_leaf(
    s: GrowState,
    l: int,
    best: SplitInfo,
    best_fpos: int,
    best_cat: Seq<u32>,
)
    requires
        0 <= l < s.leaves.len(),
    ensures
        ({
            let after = grow_machine::after_scan(s, l, best, best_fpos, best_cat);
            &&& after.leaves.len() == s.leaves.len()
            &&& after.leaves[l].best == best
            &&& after.leaves[l].best_fpos == best_fpos
            &&& after.leaves[l].best_cat == best_cat
            &&& after.leaves[l].rows == s.leaves[l].rows
            &&& after.leaves[l].sum_g == s.leaves[l].sum_g
            &&& after.leaves[l].sum_h == s.leaves[l].sum_h
            &&& after.leaves[l].depth == s.leaves[l].depth
            &&& forall|i: int| 0 <= i < s.leaves.len() && i != l ==> #[trigger] after.leaves[i] == s.leaves[i]
            &&& after.num_leaves == s.num_leaves
            &&& after.max_depth == s.max_depth
            &&& after.min_data_in_leaf == s.min_data_in_leaf
            &&& after.num_data == s.num_data
            &&& after.num_features == s.num_features
        }),
{
}

/// Of two children that may split, the left one is scanned first and the right one after it; a child
/// that may not split is not scanned.
pub proof fn left_child_is_scanned_first(
    machine: GrowMachine,
    s: GrowState,
    plan: ChildPlan,
    right_only: bool,
    features: Seq<GrowFeature>,
    r: Result<GrowAction, ComputeError>,
)
    requires
        machine.children_from(s, plan, right_only, features, r),
        0 <= s.min_data_in_leaf,
        2 * s.min_data_in_leaf <= i32::MAX,
    ensures
        ({
            let left = s.leaves[plan.left as int];
            let right = s.leaves[plan.right as int];
            let left_may = left.rows.len() >= s.min_data_in_leaf + s.min_data_in_leaf && (s.max_depth <= 0
                || left.depth < s.max_depth);
            let right_may = right.rows.len() >= s.min_data_in_leaf + s.min_data_in_leaf && (s.max_depth <= 0
                || right.depth < s.max_depth);
            &&& machine.state() == s
            &&& left_may && !right_only ==> r is Ok && r->Ok_0 == (GrowAction::Scan { leaf: plan.left })
            &&& right_may && (right_only || !left_may) ==> r is Ok && r->Ok_0 == (GrowAction::Scan {
                leaf: plan.right,
            })
            &&& !right_may && (right_only || !left_may) && r is Ok ==> !(r->Ok_0 is Scan)
            &&& left_may && !right_only ==> machine.spec_phase() == (GrowPhase::ScanLeft { plan })
            &&& right_may && (right_only || !left_may) ==> machine.spec_phase() == (GrowPhase::ScanRight { plan })
        }),
{
}

/// The rows of each leaf stand together, behind those of the leaves before it.
pub proof fn rows_stand_leaf_by_leaf(leaves: Seq<LeafState>, n: int, l: int)
    requires
        0 <= l < n <= leaves.len(),
    ensures
        grow_driver::rows_of(leaves, l).len() + leaves[l].rows.len() <= grow_driver::rows_of(leaves, n).len(),
        grow_driver::rows_of(leaves, n).subrange(
            grow_driver::rows_of(leaves, l).len() as int,
            (grow_driver::rows_of(leaves, l).len() + leaves[l].rows.len()) as int,
        ) == leaves[l].rows,
        l == 0 ==> grow_driver::rows_of(leaves, l).len() == 0,
        grow_driver::rows_of(leaves, l + 1).len() == grow_driver::rows_of(leaves, l).len() + leaves[l].rows.len(),
    decreases n,
{
    let begin = grow_driver::rows_of(leaves, l).len() as int;
    let end = begin + leaves[l].rows.len();
    if l < n - 1 {
        rows_stand_leaf_by_leaf(leaves, n - 1, l);
        assert(grow_driver::rows_of(leaves, n).subrange(begin, end) =~= grow_driver::rows_of(leaves, n - 1).subrange(
            begin,
            end,
        ));
    } else {
        assert(grow_driver::rows_of(leaves, n).subrange(begin, end) =~= leaves[l].rows);
    }
}

/// The cells of a feature take two per bin, behind those of the features before it.
pub proof fn cells_stand_feature_by_feature(features: Seq<GrowFeature>, i: int)
    requires
        0 <= i < features.len(),
    ensures
        grow_feature::cells_before(features, 0) == 0,
        grow_feature::cells_before(features, i + 1) - grow_feature::cells_before(features, i) == features[i].num_bin
            + features[i].num_bin,
{
}

/// The room for winning categories is enough for every categorical feature, at least one, and no more
/// than one of them takes.
pub proof fn category_room_is_the_widest(features: Seq<GrowFeature>, n: int, i: int) -> (j: int)
    requires
        0 <= i < n <= features.len(),
    ensures
        features[i].is_categorical() ==> grow_feature::cat_width(features, n) >= features[i].max_cat_threshold,
        features[i].is_categorical() ==> grow_feature::cat_width(features, n) >= 1,
        grow_feature::cat_width(features, n) > 1 ==> 0 <= j < n && features[j].is_categorical()
            && grow_feature::cat_width(features, n) == features[j].max_cat_threshold,
        grow_feature::cat_width(features, n) >= 0,
        grow_feature::cat_width(features, n) > 0 ==> 0 <= j < n && features[j].is_categorical(),
    decreases n,
{
    if n == 1 {
        assert(grow_feature::cat_width(features, 0) == 0);
        0
    } else {
        let before = category_room_is_the_widest(
            features,
            n - 1,
            if i < n - 1 {
                i
            } else {
                0
            },
        );
        if grow_feature::cat_width(features, n) == grow_feature::cat_width(features, n - 1) {
            before
        } else {
            n - 1
        }
    }
}

/// A feature is scanned in both directions and without its zero bin exactly where zero stands for a
/// missing value and it has more than two bins; it has a bin of its own for not-a-number under the
/// same condition.
pub proof fn batched_feature_keeps_its_bins(f: GrowFeature, slot_off: usize)
    ensures
        f.spec_batched(slot_off).slot_off == slot_off,
        f.spec_batched(slot_off).num_bin == f.num_bin,
        f.spec_batched(slot_off).offset == f.offset,
        f.spec_batched(slot_off).default_bin == f.default_bin,
        f.spec_batched(slot_off).most_freq_bin == f.most_freq_bin,
        f.spec_batched(slot_off).run_forward <==> f.missing_type is Zero && f.num_bin >= 3,
        f.spec_batched(slot_off).skip_default_bin <==> f.missing_type is Zero && f.num_bin >= 3,
        f.spec_batched(slot_off).na_as_missing <==> f.missing_type is NaN && f.num_bin >= 3,
{
}

/// A scan plan holds the numbers of each feature. The reverse pass looks at every threshold of the
/// feature, one less than it has bins; the forward pass, where it runs, at those that the offset
/// leaves.
pub proof fn scan_plan_holds_each_feature(
    plan: ScanPlan,
    feats: Seq<BatchedSplitFeature>,
    active: Seq<bool>,
    i: int,
)
    requires
        fused_scan::is_scan_plan(plan, feats, active, feats.len() as int),
        0 <= i < feats.len(),
        feats[i].slot_off <= u32::MAX,
        feats[i].most_freq_bin <= i32::MAX,
        feats[i].default_bin <= i32::MAX,
        feats[i].num_bin > 0,
    ensures
        plan.slot_off@[i] == feats[i].slot_off,
        plan.num_bin@[i] == feats[i].num_bin,
        plan.offset@[i] == feats[i].offset,
        plan.most_freq_bin@[i] == feats[i].most_freq_bin,
        plan.default_bin@[i] == feats[i].default_bin,
        plan.skip_default_bin@[i] == 1 <==> feats[i].skip_default_bin,
        plan.scan_active@[i] == 1 <==> active[i],
        plan.rev_count@[i] + 1 == feats[i].num_bin,
        !feats[i].run_forward ==> plan.fwd_count@[i] == 0,
        feats[i].run_forward && feats[i].offset + 1 < feats[i].num_bin ==> plan.fwd_count@[i] + feats[i].offset + 1
            == feats[i].num_bin,
        feats[i].run_forward && feats[i].offset + 1 >= feats[i].num_bin ==> plan.fwd_count@[i] == 0,
{
    assert(fused_scan::is_scan_entry(plan, i, feats[i], active[i]));
}

/// Where a real feature index is not among the features, it has no position; else its position is one
/// that holds it, and no later one does.
pub proof fn position_holds_the_real_index(reals: Seq<i32>, feature: i32, n: int, i: int)
    requires
        0 <= i < n <= reals.len(),
    ensures
        -1 <= grow_resident::last_position(reals, feature, n) < n,
        grow_resident::last_position(reals, feature, n) >= 0 ==> reals[grow_resident::last_position(
            reals,
            feature,
            n,
        )] == feature,
        reals[i] == feature ==> i <= grow_resident::last_position(reals, feature, n),
    decreases n,
{
    if n == 1 {
        assert(grow_resident::last_position(reals, feature, 0) == -1);
    } else {
        position_holds_the_real_index(
            reals,
            feature,
            n - 1,
            if i < n - 1 {
                i
            } else {
                0
            },
        );
    }
}

/// The region that a feature's cells are read back from is the feature's own.
pub proof fn fix_region_is_of_its_feature(features: Seq<GrowFeature>, slot_off: Seq<usize>, i: int)
    requires
        0 <= i < features.len(),
    ensures
        resident_machine::spec_fix_regions(features, slot_off).len() == features.len(),
        resident_machine::spec_fix_regions(features, slot_off)[i].0 == slot_off[i],
        resident_machine::spec_fix_regions(features, slot_off)[i].1 == features[i].num_bin,
        resident_machine::spec_fix_regions(features, slot_off)[i].2 == features[i].offset,
        resident_machine::spec_fix_regions(features, slot_off)[i].3 == features[i].most_freq_bin,
{
}

} // verus!
