//! What a split records, and what becomes of the leaf that it divides.
use crate::gain::SplitInfo;
use crate::kernels::data_partition;
use crate::kernels::fused_scan::ScannedSplit;
use crate::kernels::grow_driver;
use crate::kernels::grow_driver::{GrowState, SplitWork};
use crate::kernels::grow_feature::GrowFeature;
use crate::kernels::grow_resident;
use crate::kernels::grow_resident::{DeviceStep, PartitionArm, ResidentState};
use crate::kernels::partition::ChildRanges;
use crate::kernels::resident_machine;
use crate::error::ComputeError;
use crate::laws::categories;
use crate::laws::routing;
use crate::number::Real64;
use crate::stable;
use vstd::prelude::*;

verus! {

/// What a split records for the child that gets the left rows is what the best split has for its
/// left side, value, sums and count alike; and so for the right.
pub proof fn recorded_sides_go_with_their_rows(
    work: SplitWork,
    leaf: int,
    f: GrowFeature,
    best: SplitInfo,
    best_cat: Seq<u32>,
    rows: Seq<u32>,
    recorded_gain: Real64,
)
    requires
        0 <= leaf <= i32::MAX,
        rows.len() <= i32::MAX,
        best_cat.len() <= i32::MAX,
        grow_driver::is_split_work(work, leaf, f, best, best_cat, rows, recorded_gain),
    ensures
        work.scalars.left_value == best.left_output,
        work.scalars.left_sum_gradients == best.left_sum_gradient,
        work.scalars.left_sum_hessians == best.left_sum_hessian,
        work.scalars.left_count == work.left_rows@.len(),
        work.scalars.right_value == best.right_output,
        work.scalars.right_sum_gradients == best.right_sum_gradient,
        work.scalars.right_sum_hessians == best.right_sum_hessian,
        work.scalars.right_count == work.right_rows@.len(),
        work.left_rows@.len() + work.right_rows@.len() == rows.len(),
        work.scalars.is_valid,
        work.leaf == leaf,
        work.scalars.leaf_index == leaf,
        work.scalars.gain == recorded_gain,
        work.scalars.inner_feature_index == f.real_feature_index,
        work.scalars.default_left == best.default_left,
        work.real_feature_index == f.real_feature_index,
        !f.is_categorical() ==> work.scalars.threshold == best.threshold && work.scalars.num_cat_threshold == 0
            && work.real_threshold == Some(f.bin_upper_bound@[best.threshold as int]),
        f.is_categorical() ==> work.scalars.threshold == 0 && work.scalars.num_cat_threshold == best_cat.len()
            && work.real_threshold is None,
        work.missing_type_code == 0 <==> f.missing_type is NoMissing,
        work.missing_type_code == 1 <==> f.missing_type is Zero,
        work.missing_type_code == 2 <==> f.missing_type is NaN,
{
    let marks = grow_driver::split_marks(f, best, rows, work.inner_bitset@);
    stable::chosen_len(rows, marks, true);
    stable::chosen_len(rows, marks, false);
    stable::tallies_sum(marks);
}

/// Each row of a leaf goes to the side that its own bin is sent to, and the value recorded for the
/// child that holds it is the output of that side.
pub proof fn each_row_gets_the_output_of_its_side(
    work: SplitWork,
    leaf: int,
    f: GrowFeature,
    best: SplitInfo,
    best_cat: Seq<u32>,
    rows: Seq<u32>,
    recorded_gain: Real64,
    i: int,
)
    requires
        grow_driver::is_split_work(work, leaf, f, best, best_cat, rows, recorded_gain),
        !f.is_categorical(),
        0 <= i < rows.len(),
        f.bins@[rows[i] as int] < f.num_bin,
    ensures
        f.route(best).goes_left(f.bins@[rows[i] as int]) ==> work.left_rows@.contains(rows[i])
            && work.scalars.left_value == best.left_output,
        !f.route(best).goes_left(f.bins@[rows[i] as int]) ==> work.right_rows@.contains(rows[i])
            && work.scalars.right_value == best.right_output,
        rows.no_duplicates() ==> !(work.left_rows@.contains(rows[i]) && work.right_rows@.contains(rows[i])),
{
    let marks = grow_driver::split_marks(f, best, rows, work.inner_bitset@);
    routing::leaf_rows_are_marked_by_their_bins(f, best, rows, work.inner_bitset@, PartitionArm::HostGather, i);
    routing::side_holds_its_rows(rows, marks, true);
    routing::side_holds_its_rows(rows, marks, false);
    assert(marks[i] || !marks[i]);
    if rows.no_duplicates() && work.left_rows@.contains(rows[i]) && work.right_rows@.contains(rows[i]) {
        let p = choose|p: int| 0 <= p < work.left_rows@.len() && work.left_rows@[p] == rows[i];
        let q = choose|q: int| 0 <= q < work.right_rows@.len() && work.right_rows@[q] == rows[i];
        let a = stable::sides_hold_their_items(rows, marks, p, true);
        let b = stable::sides_hold_their_items(rows, marks, q, false);
        assert(a == i && b == i);
    }
}

/// A categorical split sends a row left exactly where the row's bin is one of the winning bins, for
/// a row with a stored bin of a feature whose offset is the one that its most frequent bin implies.
pub proof fn rows_of_winning_categories_go_left(
    work: SplitWork,
    leaf: int,
    f: GrowFeature,
    best: SplitInfo,
    best_cat: Seq<u32>,
    rows: Seq<u32>,
    recorded_gain: Real64,
    i: int,
)
    requires
        grow_driver::is_split_work(work, leaf, f, best, best_cat, rows, recorded_gain),
        f.is_categorical(),
        0 <= i < rows.len(),
        f.bins@[rows[i] as int] < f.num_bin,
        f.offset == (if f.most_freq_bin == 0 {
            1int
        } else {
            0
        }),
        f.max_bin < i32::MAX,
        f.most_freq_bin <= i32::MAX,
        f.min_bin <= f.bins@[rows[i] as int] <= f.max_bin,
        forall|k: int| 0 <= k < best_cat.len() ==> f.min_bin <= #[trigger] best_cat[k] <= f.max_bin,
    ensures
        best_cat.contains(f.bins@[rows[i] as int]) ==> work.left_rows@.contains(rows[i]),
        !best_cat.contains(f.bins@[rows[i] as int]) ==> work.right_rows@.contains(rows[i]),
{
    let bin = f.bins@[rows[i] as int];
    let bins = grow_driver::leaf_bins(f, rows);
    let winners = grow_driver::signed_bins(best_cat);
    let bits = work.inner_bitset@;
    let marks = grow_driver::split_marks(f, best, rows, bits);
    routing::leaf_rows_keep_their_bins(f, rows, i);
    routing::categories_in_the_bitset_go_left(bins, f.min_bin, f.max_bin, f.most_freq_bin, bits, i);
    assert forall|k: int| 0 <= k < winners.len() implies 0 <= #[trigger] winners[k] - f.min_bin as i32 + f.offset
        <= i32::MAX by {
        assert(f.min_bin <= best_cat[k] <= f.max_bin);
    }
    categories::routing_positions_are_in_the_bitset(bits, winners, f.min_bin as i32, f.offset, bin as i32);
    if best_cat.contains(bin) {
        let k = choose|k: int| 0 <= k < best_cat.len() && best_cat[k] == bin;
        assert(winners[k] == bin as i32);
    }
    if winners.contains(bin as i32) {
        let k = choose|k: int| 0 <= k < winners.len() && winners[k] == bin as i32;
        assert(f.min_bin <= best_cat[k] <= f.max_bin);
        assert(best_cat[k] == bin);
    }
    routing::side_holds_its_rows(rows, marks, true);
    routing::side_holds_its_rows(rows, marks, false);
    assert(marks[i] == best_cat.contains(bin));
}

/// The categories that a split records are the table's categories of the winning bins.
pub proof fn winning_categories_are_recorded(
    work: SplitWork,
    leaf: int,
    f: GrowFeature,
    best: SplitInfo,
    best_cat: Seq<u32>,
    rows: Seq<u32>,
    recorded_gain: Real64,
    k: int,
)
    requires
        grow_driver::is_split_work(work, leaf, f, best, best_cat, rows, recorded_gain),
        f.is_categorical(),
        0 <= k < best_cat.len(),
        best_cat[k] <= i32::MAX,
    ensures
        best_cat[k] < f.bin_to_category@.len() ==> data_partition::in_bitset(
            work.real_bitset@,
            f.bin_to_category@[best_cat[k] as int] as u32 as int,
        ),
        best_cat[k] >= f.bin_to_category@.len() ==> data_partition::in_bitset(
            work.real_bitset@,
            best_cat[k] as int,
        ),
{
    let winners = grow_driver::signed_bins(best_cat);
    assert(winners[k] == best_cat[k]);
    categories::winning_categories_are_in_the_bitset(work.real_bitset@, winners, f.bin_to_category@, k);
}

/// A split leaf becomes the left child, with the left rows and the sums of the left side; the right
/// child is a new leaf behind all others, with the right rows and sums. Both stand one deeper, and
/// both are still without a split. No other leaf changes.
pub proof fn children_take_their_sides(state: GrowState, l: int, left: Seq<u32>, right: Seq<u32>)
    requires
        0 <= l < state.leaves.len(),
    ensures
        ({
            let after = state.after_split(l, left, right);
            let parent = state.leaves[l];
            let n = state.leaves.len() as int;
            &&& after.leaves.len() == n + 1
            &&& after.leaves[l].rows == left
            &&& after.leaves[l].sum_g == parent.best.left_sum_gradient
            &&& after.leaves[l].sum_h == parent.best.left_sum_hessian
            &&& after.leaves[n].rows == right
            &&& after.leaves[n].sum_g == parent.best.right_sum_gradient
            &&& after.leaves[n].sum_h == parent.best.right_sum_hessian
            &&& after.leaves[l].depth == parent.depth + 1
            &&& after.leaves[n].depth == parent.depth + 1
            &&& after.leaves[l].best_fpos == -1 && after.leaves[n].best_fpos == -1
            &&& !after.leaves[l].best.gain.spec_above(Real64::spec_neg_infinity())
            &&& !after.leaves[n].best.gain.spec_above(Real64::spec_neg_infinity())
            &&& forall|i: int| 0 <= i < n && i != l ==> #[trigger] after.leaves[i] == state.leaves[i]
            &&& after.num_leaves == state.num_leaves
            &&& after.max_depth == state.max_depth
            &&& after.min_data_in_leaf == state.min_data_in_leaf
            &&& after.num_data == state.num_data
            &&& after.num_features == state.num_features
        }),
{
}

/// The same over a row permutation: the left child keeps the parent's begin and takes the rows up to
/// the split point, the right child takes the others. The child with fewer rows gets the new slot,
/// the other one keeps the parent's.
pub proof fn resident_children_take_their_sides(
    state: ResidentState,
    l: int,
    perm: Seq<u32>,
    split_point: int,
    best: SplitInfo,
)
    requires
        0 <= l < state.leaves.len() <= i32::MAX,
        0 <= split_point <= state.leaves[l].row_count,
        state.leaves[l].row_begin + state.leaves[l].row_count <= i32::MAX,
        0 <= state.leaves[l].depth < i32::MAX,
    ensures
        ({
            let after = state.after_split(l, perm, split_point, best);
            let parent = state.leaves[l];
            let n = state.leaves.len() as int;
            let left = after.leaves[l];
            let right = after.leaves[n];
            &&& after.perm == perm
            &&& after.leaves.len() == n + 1
            &&& left.row_begin == parent.row_begin
            &&& left.row_count == split_point
            &&& right.row_begin == left.row_begin + left.row_count
            &&& left.row_count + right.row_count == parent.row_count
            &&& left.sum_g == best.left_sum_gradient
            &&& left.sum_h == best.left_sum_hessian
            &&& right.sum_g == best.right_sum_gradient
            &&& right.sum_h == best.right_sum_hessian
            &&& left.depth == parent.depth + 1
            &&& right.depth == parent.depth + 1
            &&& left.row_count < right.row_count ==> left.slot == n && right.slot == parent.slot
            &&& left.row_count >= right.row_count ==> right.slot == n && left.slot == parent.slot
            &&& forall|i: int| 0 <= i < n && i != l ==> #[trigger] after.leaves[i] == state.leaves[i]
            &&& after.num_leaves == state.num_leaves
            &&& after.max_depth == state.max_depth
            &&& after.min_data_in_leaf == state.min_data_in_leaf
        }),
{
}

/// A resident split records the sides as they are, and the same record as a split of the leaf's own
/// rows does.
pub proof fn resident_record_keeps_the_sides(
    leaf: int,
    f: GrowFeature,
    best: SplitInfo,
    recorded_gain: Real64,
    left_count: int,
    right_count: int,
)
    requires
        0 <= leaf <= i32::MAX,
        0 <= left_count <= i32::MAX,
        0 <= right_count <= i32::MAX,
    ensures
        ({
            let record = grow_resident::resident_record(leaf, f, best, recorded_gain, left_count, right_count);
            &&& record.is_valid
            &&& record.leaf_index == leaf
            &&& record.gain == recorded_gain
            &&& record.inner_feature_index == f.real_feature_index
            &&& record.threshold == best.threshold
            &&& record.default_left == best.default_left
            &&& record.left_value == best.left_output
            &&& record.left_sum_gradients == best.left_sum_gradient
            &&& record.left_sum_hessians == best.left_sum_hessian
            &&& record.left_count == left_count
            &&& record.right_value == best.right_output
            &&& record.right_sum_gradients == best.right_sum_gradient
            &&& record.right_sum_hessians == best.right_sum_hessian
            &&& record.right_count == right_count
            &&& record.num_cat_threshold == 0
            &&& !f.is_categorical() ==> record == grow_driver::split_record(
                leaf as i32,
                f,
                best,
                recorded_gain,
                left_count as i32,
                right_count as i32,
                0,
            )
        }),
{
}

/// The frontier's record of a leaf holds the winner's sides as they are, and stands for a split
/// exactly where the winner's gain is above minus infinity.
pub proof fn frontier_record_keeps_the_sides(leaf: usize, winner: SplitInfo, feature: i32)
    requires
        leaf <= i32::MAX,
    ensures
        ({
            let record = resident_machine::spec_frontier_record(leaf, winner, feature);
            &&& record.is_valid <==> winner.gain.spec_above(Real64::spec_neg_infinity())
            &&& record.leaf_index == leaf
            &&& record.gain == winner.gain
            &&& record.inner_feature_index == feature
            &&& record.threshold == winner.threshold
            &&& record.default_left == winner.default_left
            &&& record.left_value == winner.left_output
            &&& record.left_sum_gradients == winner.left_sum_gradient
            &&& record.left_sum_hessians == winner.left_sum_hessian
            &&& record.right_value == winner.right_output
            &&& record.right_sum_gradients == winner.right_sum_gradient
            &&& record.right_sum_hessians == winner.right_sum_hessian
        }),
{
}

/// A window whose scan found a threshold decodes to the candidate with the window's own numbers, side
/// by side; any other window decodes to no split.
pub proof fn decoded_window_keeps_its_numbers(w: ScannedSplit)
    ensures
        w.is_splittable && w.raw_gain.spec_above(Real64::spec_neg_infinity()) ==> {
            &&& w.candidate().gain == w.shifted_gain
            &&& w.candidate().threshold == w.threshold
            &&& w.candidate().default_left == w.default_left
            &&& w.candidate().left_sum_gradient == w.left_sum_gradient
            &&& w.candidate().left_sum_hessian == w.left_sum_hessian
            &&& w.candidate().left_output == w.left_output
            &&& w.candidate().left_count == w.left_count
            &&& w.candidate().right_sum_gradient == w.right_sum_gradient
            &&& w.candidate().right_sum_hessian == w.right_sum_hessian
            &&& w.candidate().right_output == w.right_output
            &&& w.candidate().right_count == w.right_count
        },
        !(w.is_splittable && w.raw_gain.spec_above(Real64::spec_neg_infinity()))
            ==> !w.candidate().gain.spec_above(Real64::spec_neg_infinity()) && w.candidate().left_count == 0
            && w.candidate().right_count == 0,
{
}

/// The steps of a split settle each child once: a child that may split is scanned from its own slot,
/// any other one is stored as having no split. The larger child is not looked at before the
/// subtraction has filled its slot.
pub proof fn steps_settle_each_child(
    smaller: usize,
    larger: usize,
    smaller_slot: usize,
    larger_slot: usize,
    smaller_scan: bool,
    larger_scan: bool,
    copack: bool,
    single_owner: bool,
)
    requires
        smaller != larger,
    ensures
        ({
            let steps = grow_resident::child_steps(
                smaller,
                larger,
                smaller_slot,
                larger_slot,
                smaller_scan,
                larger_scan,
                copack,
                single_owner,
            );
            &&& steps_scan(steps, smaller, smaller_slot) == smaller_scan
            &&& steps_scan(steps, larger, larger_slot) == larger_scan
            &&& steps_seed(steps, larger) == !larger_scan
            &&& steps_seed(steps, smaller) ==> !smaller_scan
            &&& !smaller_scan && !single_owner ==> steps_seed(steps, smaller)
            &&& !single_owner && copack && smaller_scan && larger_scan <==> steps.len() > 0 && (
            steps.last() is ScanSiblings)
            &&& single_owner <==> steps[0] is BuildAndScan
        }),
{
    let steps = grow_resident::child_steps(
        smaller,
        larger,
        smaller_slot,
        larger_slot,
        smaller_scan,
        larger_scan,
        copack,
        single_owner,
    );
    scan_among_few(steps, smaller, smaller_slot);
    scan_among_few(steps, larger, larger_slot);
    seed_among_few(steps, smaller);
    seed_among_few(steps, larger);
}

proof fn scan_among_few(steps: Seq<DeviceStep>, leaf: usize, slot: usize)
    requires
        steps.len() <= 4,
    ensures
        steps_scan(steps, leaf, slot) <==> {
            ||| steps.len() > 0 && scans(steps[0], leaf, slot)
            ||| steps.len() > 1 && scans(steps[1], leaf, slot)
            ||| steps.len() > 2 && scans(steps[2], leaf, slot)
            ||| steps.len() > 3 && scans(steps[3], leaf, slot)
        },
{
    assert forall|k: int| 0 <= k < steps.len() && #[trigger] scans(steps[k], leaf, slot) implies k == 0 || k == 1
        || k == 2 || k == 3 by {
    }
}

proof fn seed_among_few(steps: Seq<DeviceStep>, leaf: usize)
    requires
        steps.len() <= 4,
    ensures
        steps_seed(steps, leaf) <==> {
            ||| steps.len() > 0 && seeds(steps[0], leaf)
            ||| steps.len() > 1 && seeds(steps[1], leaf)
            ||| steps.len() > 2 && seeds(steps[2], leaf)
            ||| steps.len() > 3 && seeds(steps[3], leaf)
        },
{
    assert forall|k: int| 0 <= k < steps.len() && #[trigger] seeds(steps[k], leaf) implies k == 0 || k == 1
        || k == 2 || k == 3 by {
    }
}

/// A step scans a leaf from a slot.
pub open spec fn scans(step: DeviceStep, leaf: usize, slot: usize) -> bool {
    match step {
        DeviceStep::BuildAndScan { leaf: l, slot: s, scan } => l == leaf && s == slot && scan,
        DeviceStep::ScanSiblings { smaller, larger, smaller_slot, larger_slot } => {
            ||| smaller == leaf && smaller_slot == slot
            ||| larger == leaf && larger_slot == slot
        },
        DeviceStep::Scan { leaf: l, slot: s } => l == leaf && s == slot,
        _ => false,
    }
}

/// A step stores that a leaf has no split.
pub open spec fn seeds(step: DeviceStep, leaf: usize) -> bool {
    step matches DeviceStep::SeedNone { leaf: l } && l == leaf
}

/// One of the steps scans a leaf from a slot.
pub open spec fn steps_scan(steps: Seq<DeviceStep>, leaf: usize, slot: usize) -> bool {
    exists|k: int| 0 <= k < steps.len() && #[trigger] scans(steps[k], leaf, slot)
}

/// One of the steps stores that a leaf has no split.
pub open spec fn steps_seed(steps: Seq<DeviceStep>, leaf: usize) -> bool {
    exists|k: int| 0 <= k < steps.len() && #[trigger] seeds(steps[k], leaf)
}

/// The root is built into slot 0 first, and scanned from there where it may split or the build scans
/// in any case.
pub proof fn root_is_built_and_scanned(scan: bool, single_owner: bool)
    ensures
        ({
            let steps = resident_machine::root_steps(scan, single_owner);
            &&& steps.len() > 0
            &&& steps_scan(steps, 0, 0) == (scan || single_owner)
            &&& match steps[0] {
                DeviceStep::Build { leaf, slot, counted } => !single_owner && leaf == 0 && slot == 0 && counted,
                DeviceStep::BuildAndScan { leaf, slot, .. } => single_owner && leaf == 0 && slot == 0,
                _ => false,
            }
        }),
{
    let steps = resident_machine::root_steps(scan, single_owner);
    scan_among_few(steps, 0, 0);
}

/// A child of a resident growth is scanned exactly where it has rows, a hessian sum above zero, twice
/// the smallest number of rows, and depth to spare.
pub proof fn scannable_child_may_split(
    leaf: grow_resident::ResidentLeaf,
    min_data: i32,
    max_depth: i32,
)
    requires
        0 <= min_data,
        2 * min_data <= i32::MAX,
    ensures
        grow_resident::child_scannable(leaf, min_data, max_depth) <==> {
            &&& leaf.row_count >= 1
            &&& leaf.row_count >= min_data + min_data
            &&& leaf.sum_h.spec_above(Real64::spec_zero())
            &&& max_depth <= 0 || leaf.depth < max_depth
        },
        grow_driver::may_split(leaf.row_count as int, leaf.depth as int, min_data, max_depth) <==> {
            &&& leaf.row_count >= min_data + min_data
            &&& max_depth <= 0 || leaf.depth < max_depth
        },
{
}

/// A split of a leaf's range that fails leaves the permutation alone. One that succeeds sets the rows
/// whose bin goes left before the split point and the others behind it, and moves no row out of the
/// range or into it.
pub proof fn range_is_split_by_bins(
    arm: PartitionArm,
    f: GrowFeature,
    best: SplitInfo,
    before: Seq<u32>,
    after: Seq<u32>,
    begin: int,
    count: int,
    leaf_id: usize,
    num_leaves: nat,
    r: Result<usize, ComputeError>,
    p: int,
)
    requires
        0 <= begin,
        0 <= p < count,
        begin + count <= before.len(),
        forall|i: int| begin <= i < begin + count ==> f.bins@[#[trigger] before[i] as int] < f.num_bin,
        grow_resident::is_range_partition(arm, f, best, before, after, begin, count, leaf_id, num_leaves, r),
    ensures
        r is Err ==> after == before,
        r matches Ok(split_point) ==> {
            &&& split_point <= count
            &&& p < split_point <==> f.route(best).goes_left(f.bins@[after[begin + p] as int])
            &&& forall|k: int|
                0 <= k < before.len() && (k < begin || k >= begin + count) ==> #[trigger] after[k] == before[k]
        },
{
    if r is Ok {
        let rows = before.subrange(begin, begin + count);
        let bins = grow_resident::arm_bins(arm, f, rows);
        let route = f.route(best);
        let i = routing::span_sets_left_rows_first(before, after, begin, rows, bins, route, p);
        routing::tally_is_the_count(route.marks(bins), true);
        assert(f.bins@[before[begin + i] as int] < f.num_bin);
        routing::leaf_rows_keep_their_bins(f, rows, i);
    }
}

/// A leaf of a table that is split gets the ranges of its two children, one behind the other; every
/// other leaf keeps its own. The arms that work on the host leave the table alone.
pub proof fn table_gets_the_ranges_of_the_split(
    arm: PartitionArm,
    before: Seq<ChildRanges>,
    after: Seq<ChildRanges>,
    leaf_id: int,
    begin: int,
    count: int,
    split_point: int,
    leaf: int,
)
    requires
        0 <= leaf < before.len(),
        0 <= leaf_id < before.len(),
        grow_resident::is_table_after(arm, before, after, leaf_id, begin, count, split_point),
    ensures
        after.len() == before.len(),
        leaf != leaf_id || !(arm is Device) ==> after[leaf] == before[leaf],
        arm is Device ==> {
            &&& after[leaf_id].left_start == begin
            &&& after[leaf_id].left_end == begin + split_point
            &&& after[leaf_id].right_start == after[leaf_id].left_end
            &&& after[leaf_id].right_end == begin + count
            &&& after[leaf_id].left_count == after[leaf_id].left_end - after[leaf_id].left_start
            &&& after[leaf_id].right_count == after[leaf_id].right_end - after[leaf_id].right_start
        },
{
}

} // verus!
