//! What the steps of a growth do to its state.
use crate::error::ComputeError;
use crate::gain::SplitInfo;
use crate::kernels::grow_driver;
use crate::kernels::grow_driver::{ChildPlan, FeatureScan, GrowDriver, SplitWork};
use crate::kernels::grow_feature;
use crate::kernels::grow_feature::GrowFeature;
use crate::kernels::grow_machine;
use crate::kernels::grow_machine::{GrowAction, GrowEvent, GrowMachine, GrowPhase};
use crate::kernels::grow_resident;
use crate::kernels::grow_resident::{PartitionArm, PickExport, PickedLeaf, ResidentGrow, ResidentPlan};
use crate::kernels::partition::DeviceLeafSplits;
use crate::laws::growth;
use crate::laws::routing;
use crate::laws::splits;
use crate::number::Real64;
use crate::stable;
use vstd::prelude::*;

verus! {

/// A split that is taken over makes the split leaf the left child, with the left rows and the sums of the
/// left side, and adds the right child behind all leaves. The smaller child is the one with fewer rows,
/// the right one where both have as many.
pub proof fn taken_split_makes_two_children(
    driver: &mut GrowDriver,
    work: SplitWork,
    right_leaf_index: i32,
    r: Result<ChildPlan, ComputeError>,
)
    requires
        call_ensures(GrowDriver::commit_split, (driver, work, right_leaf_index), r),
        old(driver)@.wf(),
        work.leaf < old(driver)@.leaves.len(),
    ensures
        r is Ok <==> right_leaf_index == old(driver)@.leaves.len(),
        r is Err ==> final(driver)@ == old(driver)@,
        r is Ok ==> {
            let plan = r->Ok_0;
            let before = old(driver)@.leaves;
            let after = final(driver)@.leaves;
            let l = work.leaf as int;
            let n = before.len() as int;
            &&& after.len() == n + 1
            &&& plan.left == l
            &&& plan.right == n
            &&& after[l].rows == work.left_rows@
            &&& after[n].rows == work.right_rows@
            &&& after[l].sum_g == before[l].best.left_sum_gradient
            &&& after[l].sum_h == before[l].best.left_sum_hessian
            &&& after[n].sum_g == before[l].best.right_sum_gradient
            &&& after[n].sum_h == before[l].best.right_sum_hessian
            &&& after[l].depth == before[l].depth + 1
            &&& after[n].depth == before[l].depth + 1
            &&& work.left_rows@.len() < work.right_rows@.len() ==> plan.smaller == l && plan.larger == n
            &&& work.left_rows@.len() >= work.right_rows@.len() ==> plan.smaller == n && plan.larger == l
            &&& forall|i: int| 0 <= i < n && i != l ==> #[trigger] after[i] == before[i]
        },
{
    splits::children_take_their_sides(old(driver)@, work.leaf as int, work.left_rows@, work.right_rows@);
}

/// A scan that is recorded sets the split of its leaf and leaves the rest alone.
pub proof fn recorded_scan_sets_the_split(
    driver: &mut GrowDriver,
    l: usize,
    best: SplitInfo,
    best_fpos: i32,
    best_cat: Vec<u32>,
)
    requires
        call_ensures(GrowDriver::record_scan, (driver, l, best, best_fpos, best_cat), ()),
        l < old(driver)@.leaves.len(),
    ensures
        final(driver)@.leaves.len() == old(driver)@.leaves.len(),
        final(driver)@.leaves[l as int].best == best,
        final(driver)@.leaves[l as int].best_fpos == best_fpos,
        final(driver)@.leaves[l as int].best_cat == best_cat@,
        final(driver)@.leaves[l as int].rows == old(driver)@.leaves[l as int].rows,
        final(driver)@.leaves[l as int].sum_g == old(driver)@.leaves[l as int].sum_g,
        final(driver)@.leaves[l as int].sum_h == old(driver)@.leaves[l as int].sum_h,
        final(driver)@.leaves[l as int].depth == old(driver)@.leaves[l as int].depth,
        forall|i: int|
            0 <= i < old(driver)@.leaves.len() && i != l ==> #[trigger] final(driver)@.leaves[i]
                == old(driver)@.leaves[i],
{
}

/// The best split of a leaf is the one with the greatest gain among its features, those with a bin of
/// their own for not-a-number left out. A leaf without rows, or whose hessian sum is not above zero, has
/// none.
pub proof fn scanned_leaf_gets_the_greatest_gain(
    features: &[GrowFeature],
    scans: &[FeatureScan],
    sum_h: Real64,
    num_data_in_leaf: i32,
    r: (SplitInfo, i32, Vec<u32>),
    k: int,
)
    requires
        call_ensures(grow_driver::scan_leaf, (features, scans, sum_h, num_data_in_leaf), r),
        scans@.len() == features@.len(),
        scans@.len() <= i32::MAX,
        0 <= k < scans@.len(),
        forall|i: int| 0 <= i < scans@.len() ==> !(#[trigger] scans@[i]).split.gain.spec_is_nan(),
        forall|i: int| 0 <= i < features@.len() ==> 0 <= (#[trigger] features@[i]).real_feature_index < i32::MAX,
    ensures
        ({
            let may = sum_h.spec_above(Real64::spec_zero()) && num_data_in_leaf > 0;
            let skipped = |i: int| features@[i].num_bin > 2 && features@[i].missing_type is NaN;
            &&& !may ==> r.1 == -1
            &&& r.1 < 0 ==> r.1 == -1 && r.2@.len() == 0 && !r.0.gain.spec_above(Real64::spec_neg_infinity())
            &&& r.1 < 0 && may && !skipped(k) ==> !scans@[k].split.gain.spec_above(Real64::spec_neg_infinity())
            &&& r.1 >= 0 ==> {
                &&& may
                &&& r.1 < scans@.len()
                &&& !skipped(r.1 as int)
                &&& r.0 == scans@[r.1 as int].split
                &&& r.2@ == scans@[r.1 as int].cat_bins@
                &&& !skipped(k) ==> !scans@[k].split.gain.spec_above(r.0.gain)
            }
        }),
{
    let all = grow_driver::scan_splits(scans@);
    let skips = grow_driver::scan_skips(features@);
    let reals = grow_feature::real_indices(features@);
    assert forall|i: int| 0 <= i < all.len() && !skips[i] implies !(#[trigger] all[i]).gain.spec_is_nan() by {
        assert(!scans@[i].split.gain.spec_is_nan());
    }
    assert forall|i: int| 0 <= i < all.len() implies 0 <= #[trigger] reals[i] < i32::MAX by {
        assert(0 <= features@[i].real_feature_index < i32::MAX);
    }
    growth::winner_has_the_greatest_gain(all, skips, reals, all.len() as int, k);
    assert(all[k] == scans@[k].split);
}

/// Splitting a resident leaf sets the rows whose bin goes left before the others, gives each child its
/// rows and the sums of its side, and records the sides as they are.
pub proof fn resident_split_makes_two_children(
    grow: &mut ResidentGrow,
    features: &[GrowFeature],
    picked: &PickedLeaf,
    recorded_gain: Real64,
    arm: PartitionArm,
    table: &mut DeviceLeafSplits,
    copack: bool,
    single_owner: bool,
    r: Result<ResidentPlan, ComputeError>,
    p: int,
)
    requires
        call_ensures(
            ResidentGrow::split_leaf,
            (grow, features, picked, recorded_gain, arm, table, copack, single_owner),
            r,
        ),
        old(grow)@.wf(),
        r is Ok,
        picked.leaf < old(grow)@.leaves.len(),
        0 <= p < old(grow)@.leaves[picked.leaf as int].row_count,
        ({
            let leaf = old(grow)@.leaves[picked.leaf as int];
            let f = features@[picked.fpos as int];
            forall|i: int|
                leaf.row_begin <= i < leaf.row_begin + leaf.row_count ==> f.bins@[#[trigger] old(
                    grow,
                )@.perm[i] as int] < f.num_bin
        }),
    ensures
        ({
            let plan = r->Ok_0;
            let f = features@[picked.fpos as int];
            let parent = old(grow)@.leaves[picked.leaf as int];
            let n = old(grow)@.leaves.len() as int;
            let left = final(grow)@.leaves[picked.leaf as int];
            let right = final(grow)@.leaves[n];
            let row = final(grow)@.perm[parent.row_begin + p] as int;
            &&& p < left.row_count <==> f.route(picked.best).goes_left(f.bins@[row])
            &&& left.row_begin == parent.row_begin
            &&& right.row_begin == left.row_begin + left.row_count
            &&& left.row_count + right.row_count == parent.row_count
            &&& left.sum_g == picked.best.left_sum_gradient
            &&& left.sum_h == picked.best.left_sum_hessian
            &&& right.sum_g == picked.best.right_sum_gradient
            &&& right.sum_h == picked.best.right_sum_hessian
            &&& plan.left == picked.leaf
            &&& plan.right == n
            &&& left.row_count < right.row_count ==> plan.smaller == plan.left && plan.larger == plan.right
                && left.slot == n && right.slot == parent.slot
            &&& left.row_count >= right.row_count ==> plan.smaller == plan.right && plan.larger == plan.left
                && right.slot == n && left.slot == parent.slot
            &&& plan.scalars.left_value == picked.best.left_output
            &&& plan.scalars.right_value == picked.best.right_output
            &&& plan.scalars.left_sum_gradients == picked.best.left_sum_gradient
            &&& plan.scalars.left_sum_hessians == picked.best.left_sum_hessian
            &&& plan.scalars.right_sum_gradients == picked.best.right_sum_gradient
            &&& plan.scalars.right_sum_hessians == picked.best.right_sum_hessian
            &&& plan.scalars.left_count == left.row_count
            &&& plan.scalars.right_count == right.row_count
            &&& plan.scalars.threshold == picked.best.threshold
            &&& plan.scalars.default_left == picked.best.default_left
            &&& plan.scalars.inner_feature_index == f.real_feature_index
            &&& plan.real_threshold == f.bin_upper_bound@[picked.best.threshold as int]
        }),
{
    let l = picked.leaf as int;
    let s = old(grow)@;
    let f = features@[picked.fpos as int];
    let parent = s.leaves[l];
    let rows = s.rows(l);
    let bins = grow_resident::arm_bins(arm, f, rows);
    let marks = grow_resident::arm_marks(arm, f, picked.best, rows);
    let sp = stable::tally(marks, true) as int;
    stable::tallies_sum(marks);
    assert(s.perm.len() <= i32::MAX);
    assert(parent.row_begin + parent.row_count <= s.perm.len());
    assert(0 <= parent.depth < s.leaves.len());
    splits::resident_children_take_their_sides(s, l, final(grow)@.perm, sp, picked.best);
    splits::resident_record_keeps_the_sides(l, f, picked.best, recorded_gain, sp, parent.row_count - sp);
    let i = routing::span_sets_left_rows_first(
        s.perm,
        final(grow)@.perm,
        parent.row_begin as int,
        rows,
        bins,
        f.route(picked.best),
        p,
    );
    routing::tally_is_the_count(marks, true);
    assert(f.bins@[s.perm[parent.row_begin + i] as int] < f.num_bin);
    routing::leaf_rows_keep_their_bins(f, rows, i);
}

/// The frontier's pick is taken exactly where it names a leaf and its gain is above zero, with the
/// position of the feature that it names.
pub proof fn pick_is_taken_with_its_feature(
    grow: &ResidentGrow,
    features: &[GrowFeature],
    export: &PickExport,
    r: Result<Option<PickedLeaf>, ComputeError>,
    i: int,
)
    requires
        call_ensures(ResidentGrow::take_pick, (grow, features, export), r),
        0 <= i < features@.len(),
        features@[i].real_feature_index == export.real_feature,
    ensures
        r is Ok,
        export.best_leaf < 0 || !export.best.gain.spec_above(Real64::spec_zero()) ==> r->Ok_0 is None,
        export.best_leaf >= 0 && export.best.gain.spec_above(Real64::spec_zero()) ==> (r->Ok_0 matches Some(pick) && {
            &&& pick.leaf == export.best_leaf
            &&& pick.best == export.best
            &&& pick.fpos < features@.len()
            &&& features@[pick.fpos as int].real_feature_index == export.real_feature
        }),
{
    let reals = grow_feature::real_indices(features@);
    growth::position_holds_the_real_index(reals, export.real_feature, features@.len() as int, i);
    assert(reals[i] == export.real_feature);
}

/// A leaf's child ranges tile the parent's range, and no other leaf's ranges change.
pub proof fn written_ranges_tile_the_parent(
    table: &mut DeviceLeafSplits,
    leaf_id: usize,
    split_point: i32,
    begin: i32,
    count: i32,
    leaf: int,
)
    requires
        call_ensures(DeviceLeafSplits::write_child_ranges, (table, leaf_id, split_point, begin, count), ()),
        leaf_id < old(table)@.len(),
        0 <= leaf < old(table)@.len(),
    ensures
        ({
            let ranges = final(table)@[leaf_id as int];
            &&& ranges.left_start == begin
            &&& ranges.left_end - ranges.left_start == split_point
            &&& ranges.right_start == ranges.left_end
            &&& ranges.right_end == begin + count
            &&& ranges.left_count == split_point
            &&& ranges.left_count + ranges.right_count == count
        }),
        leaf != leaf_id ==> final(table)@[leaf] == old(table)@[leaf],
{
}

/// Once the tree has split, the smaller child is built; once it is built, the larger one is what the
/// parent's histogram leaves of it.
pub proof fn smaller_child_is_built_and_larger_derived(
    machine: &mut GrowMachine,
    features: &[GrowFeature],
    event: GrowEvent,
    r: Result<GrowAction, ComputeError>,
)
    requires
        call_ensures(GrowMachine::advance, (machine, features, event), r),
        old(machine).wf(),
    ensures
        old(machine).spec_phase() is RootBuild ==> r is Ok && r->Ok_0 == (GrowAction::Scan { leaf: 0 })
            && final(machine).spec_phase() is RootScan && final(machine).state() == old(machine).state(),
        old(machine).spec_phase() is TreeSplit && event is TreeSplit && r is Ok ==> {
            let work = old(machine).spec_pending()->Some_0;
            let n = old(machine).state().leaves.len();
            &&& final(machine).state().leaves.len() == n + 1
            &&& final(machine).state().leaves[work.leaf as int].rows == work.left_rows@
            &&& final(machine).state().leaves[n as int].rows == work.right_rows@
            &&& work.left_rows@.len() < work.right_rows@.len() ==> r->Ok_0 == (GrowAction::Build {
                leaf: work.leaf,
            })
            &&& work.left_rows@.len() >= work.right_rows@.len() ==> (r->Ok_0 matches GrowAction::Build { leaf }
                && leaf == n)
        },
        old(machine).spec_phase() matches GrowPhase::BuildSmaller { plan } ==> {
            &&& r is Ok
            &&& r->Ok_0 == (GrowAction::Subtract {
                parent: plan.left,
                smaller: plan.smaller,
                larger: plan.larger,
            })
            &&& final(machine).state() == old(machine).state()
        },
{
}

/// Dividing a leaf of a growth goes by the leaf's own split and feature: the record holds the sides of that
/// split, and each row goes to the side of its bin.
pub proof fn leaf_is_divided_by_its_own_split(
    driver: &GrowDriver,
    features: &[GrowFeature],
    l: usize,
    recorded_gain: Real64,
    r: Result<SplitWork, ComputeError>,
    i: int,
)
    requires
        call_ensures(GrowDriver::split_leaf, (driver, features, l, recorded_gain), r),
        r is Ok,
        driver@.wf(),
        l < driver@.leaves.len(),
        0 <= i < driver@.leaves[l as int].rows.len(),
        driver@.leaves[l as int].rows.len() <= i32::MAX,
        ({
            let leaf = driver@.leaves[l as int];
            let f = features@[leaf.best_fpos];
            !f.is_categorical() && f.bins@[leaf.rows[i] as int] < f.num_bin
        }),
    ensures
        ({
            let leaf = driver@.leaves[l as int];
            let f = features@[leaf.best_fpos];
            let row = leaf.rows[i];
            let work = r->Ok_0;
            &&& f.route(leaf.best).goes_left(f.bins@[row as int]) ==> work.left_rows@.contains(row)
            &&& !f.route(leaf.best).goes_left(f.bins@[row as int]) ==> work.right_rows@.contains(row)
            &&& work.leaf == l
            &&& work.scalars.gain == recorded_gain
            &&& work.scalars.left_value == leaf.best.left_output
            &&& work.scalars.right_value == leaf.best.right_output
            &&& work.scalars.left_count == work.left_rows@.len()
            &&& work.scalars.right_count == work.right_rows@.len()
            &&& work.scalars.inner_feature_index == f.real_feature_index
            &&& work.scalars.threshold == leaf.best.threshold
            &&& work.real_threshold == Some(f.bin_upper_bound@[leaf.best.threshold as int])
        }),
{
    let leaf = driver@.leaves[l as int];
    let f = features@[leaf.best_fpos];
    assert(leaf.best_cat.len() <= i32::MAX);
    splits::recorded_sides_go_with_their_rows(
        r->Ok_0,
        l as int,
        f,
        leaf.best,
        leaf.best_cat,
        leaf.rows,
        recorded_gain,
    );
    splits::each_row_gets_the_output_of_its_side(
        r->Ok_0,
        l as int,
        f,
        leaf.best,
        leaf.best_cat,
        leaf.rows,
        recorded_gain,
        i,
    );
}

/// Once a leaf is scanned and none is left to scan, the leaf with the greatest gain is split, and the tree
/// records that gain.
pub proof fn scanned_root_is_split_with_its_gain(
    machine: &mut GrowMachine,
    features: &[GrowFeature],
    best: SplitInfo,
    best_fpos: i32,
    best_cat: Vec<u32>,
    r: Result<GrowAction, ComputeError>,
)
    requires
        call_ensures(
            GrowMachine::advance,
            (machine, features, GrowEvent::Scanned { best, best_fpos, best_cat }),
            r,
        ),
        old(machine).wf(),
        old(machine).spec_phase() is RootScan,
        old(machine).state().leaves.len() == 1,
        features@.len() == old(machine).state().num_features,
        -1 <= best_fpos < features@.len(),
        !best.gain.spec_is_nan(),
        best_fpos == -1 ==> !best.gain.spec_above(Real64::spec_zero()),
        forall|f: int| 0 <= f < features@.len() ==> 0 <= (#[trigger] features@[f]).real_feature_index < i32::MAX,
        r is Ok,
    ensures
        old(machine).state().num_leaves > 1 && best.gain.spec_above(Real64::spec_zero()) ==> (
        r->Ok_0 matches GrowAction::SplitTree { work } && work.leaf == 0 && work.scalars.gain == best.gain
            && work.scalars.left_value == best.left_output && work.scalars.right_value == best.right_output),
        old(machine).state().num_leaves <= 1 || !best.gain.spec_above(Real64::spec_zero()) ==> r->Ok_0 is Finish,
        final(machine).state().leaves[0].best == best,
        final(machine).state().leaves[0].rows == old(machine).state().leaves[0].rows,
{
    let s = grow_machine::after_scan(old(machine).state(), 0, best, best_fpos as int, best_cat@);
    let reals = grow_feature::real_indices(features@);
    assert(s.leaves.len() == 1);
    assert(s.leaves[0].best == best && s.leaves[0].best_fpos == best_fpos);
    assert forall|f: int| 0 <= f < reals.len() implies 0 <= #[trigger] reals[f] < i32::MAX by {
        assert(0 <= features@[f].real_feature_index < i32::MAX);
    }
    growth::next_leaf_has_the_greatest_gain(s.leaves, reals, 0);
}

} // verus!
