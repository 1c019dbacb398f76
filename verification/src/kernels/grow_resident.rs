//! Best-first growth over resident buffers: one row permutation that is partitioned in place,
//! one histogram slot per leaf, and a frontier on the device that picks the next leaf.
use crate::bin_column;
use crate::bin_column::BinColumn;
use crate::dataset::LeafPartitionLayout;
use crate::error;
use crate::error::{ComputeError, Fault};
use crate::gain::SplitInfo;
use crate::kernels::data_partition;
use crate::kernels::grow_driver;
use crate::kernels::grow_driver::{LeafState, ShownNumber};
use crate::kernels::grow_feature;
use crate::kernels::grow_feature::GrowFeature;
use crate::kernels::partition;
use crate::kernels::partition::{ChildRanges, DeviceLeafSplits};
use crate::kernels::split_info::SplitScalars;
use crate::number::Real64;
use crate::stable;
use crate::text;
use vstd::prelude::*;

verus! {

/// How the rows of a leaf are partitioned.
#[derive(Debug, Clone, Copy, PartialEq, Eq, Structural)]
pub enum PartitionArm {
    /// On the host, reading the bins through the rows.
    HostFused,
    /// On the host, from a gathered column of the leaf's bins.
    HostGather,
    /// By the kernels, from a gathered column, with the child ranges stored on the device.
    Device,
}

/// The arm of a partition: the host's where the backend prefers it, fused unless that is
/// switched off.
pub fn choose_partition_arm(prefers_host_partition: bool, fused_enabled: bool) -> (arm: PartitionArm)
    ensures
        arm == (if !prefers_host_partition {
            PartitionArm::Device
        } else if fused_enabled {
            PartitionArm::HostFused
        } else {
            PartitionArm::HostGather
        }),
{
    if prefers_host_partition {
        if fused_enabled {
            PartitionArm::HostFused
        } else {
            PartitionArm::HostGather
        }
    } else {
        PartitionArm::Device
    }
}

/// The bins by which an arm routes the given rows.
pub open spec fn arm_bins(arm: PartitionArm, f: GrowFeature, rows: Seq<u32>) -> Seq<u32> {
    match arm {
        PartitionArm::HostFused => data_partition::gathered(f.bins@, rows),
        _ => grow_driver::leaf_bins(f, rows),
    }
}

/// The fault of partitioning the given rows by an arm.
pub open spec fn arm_fault(
    arm: PartitionArm,
    f: GrowFeature,
    best: SplitInfo,
    rows: Seq<u32>,
    leaf_id: usize,
    num_leaves: nat,
) -> Option<Fault> {
    let bins = arm_bins(arm, f, rows);
    match arm {
        PartitionArm::Device => partition::child_ranges_fault(
            bins,
            f.num_bin,
            best.threshold,
            rows.len(),
            leaf_id,
            num_leaves,
        ),
        _ => data_partition::partition_fault(bins, f.num_bin, best.threshold, rows.len()),
    }
}

/// The left marks of the given rows under an arm.
pub open spec fn arm_marks(arm: PartitionArm, f: GrowFeature, best: SplitInfo, rows: Seq<u32>) -> Seq<bool> {
    f.route(best).marks(arm_bins(arm, f, rows))
}

/// Where a column for the feature's bin count can hold every bin, all arms route alike and refuse
/// the same splits, up to the leaf id that only the device arm looks at. A bin at or above the bin
/// count is refused by every arm, as the same row and the same bin.
pub proof fn arms_agree(
    a: PartitionArm,
    b: PartitionArm,
    f: GrowFeature,
    best: SplitInfo,
    rows: Seq<u32>,
    leaf_id: usize,
    num_leaves: nat,
)
    requires
        forall|i: int|
            0 <= i < rows.len() ==> f.bins@[#[trigger] rows[i] as int] < bin_column::column_capacity(f.num_bin),
        leaf_id < num_leaves,
    ensures
        arm_marks(a, f, best, rows) == arm_marks(b, f, best, rows),
        arm_fault(a, f, best, rows, leaf_id, num_leaves) == arm_fault(
            b,
            f,
            best,
            rows,
            leaf_id,
            num_leaves,
        ),
{
    let g = data_partition::gathered(f.bins@, rows);
    assert forall|i: int| 0 <= i < g.len() implies #[trigger] g[i] < bin_column::column_capacity(f.num_bin) by {
        assert(g[i] == f.bins@[rows[i] as int]);
    }
    bin_column::column_keeps_valid_bins(g, f.num_bin);
}

/// What partitioning a span of the permutation gives: the fault of the arm and the permutation as
/// it was, or the stable partition of the span and the number of its left rows.
pub open spec fn is_range_partition(
    arm: PartitionArm,
    f: GrowFeature,
    best: SplitInfo,
    before: Seq<u32>,
    after: Seq<u32>,
    begin: int,
    count: int,
    leaf_id: usize,
    num_leaves: nat,
    r: Result<usize, ComputeError>,
) -> bool {
    let rows = before.subrange(begin, begin + count);
    let marks = arm_marks(arm, f, best, rows);
    &&& error::fails_as(r, arm_fault(arm, f, best, rows, leaf_id, num_leaves))
    &&& r is Err ==> after == before
    &&& r matches Ok(split_point) ==> {
        &&& partition::span_partitioned(before, after, begin, rows, marks)
        &&& split_point == stable::tally(marks, true)
        &&& split_point <= count
    }
}

/// The table of child ranges after a leaf's span was partitioned: the device arm stores the two
/// ranges of that leaf and leaves the others, and the host arms store nothing.
pub open spec fn is_table_after(
    arm: PartitionArm,
    before: Seq<ChildRanges>,
    after: Seq<ChildRanges>,
    leaf_id: int,
    begin: int,
    count: int,
    split_point: int,
) -> bool {
    match arm {
        PartitionArm::Device => {
            &&& after.len() == before.len()
            &&& partition::ranges_split_parent(after[leaf_id], begin, count, split_point)
            &&& forall|leaf: int|
                0 <= leaf < before.len() && leaf != leaf_id ==> #[trigger] after[leaf] == before[leaf]
        },
        _ => after == before,
    }
}

/// A host partition of a span does what the partition of the leaf's gathered column does, fused or
/// not: it succeeds where that succeeds, puts the same rows in the same order, and counts the same
/// left rows; where that fails, it fails alike and moves no row. The gathered column can hold every
/// bin of the span.
pub proof fn host_arms_follow_the_leaf_partition(
    arm: PartitionArm,
    f: GrowFeature,
    best: SplitInfo,
    before: Seq<u32>,
    after: Seq<u32>,
    begin: int,
    count: int,
    leaf_id: usize,
    num_leaves: nat,
    r: Result<usize, ComputeError>,
    column: BinColumn,
    q: Result<(Vec<u32>, usize), ComputeError>,
)
    requires
        arm != PartitionArm::Device,
        0 <= begin,
        0 <= count,
        begin + count <= before.len(),
        forall|i: int|
            begin <= i < begin + count ==> f.bins@[#[trigger] before[i] as int] < bin_column::column_capacity(
                f.num_bin,
            ),
        is_range_partition(arm, f, best, before, after, begin, count, leaf_id, num_leaves, r),
        column@ == grow_driver::leaf_bins(f, before.subrange(begin, begin + count)),
        error::fails_as(q, data_partition::partition_fault(column@, f.num_bin, best.threshold, count as nat)),
        data_partition::is_partition(
            q,
            before.subrange(begin, begin + count),
            f.route(best).marks(column@),
        ),
    ensures
        r is Ok <==> q is Ok,
        r is Ok ==> after.subrange(begin, begin + count) == q->Ok_0.0@ && r->Ok_0 == q->Ok_0.1,
        r is Err ==> r->Err_0@ == q->Err_0@ && after == before,
        forall|k: int|
            0 <= k < before.len() && !(begin <= k < begin + count) ==> #[trigger] after[k] == before[k],
{
    let rows = before.subrange(begin, begin + count);
    assert forall|i: int| 0 <= i < rows.len() implies f.bins@[#[trigger] rows[i] as int]
        < bin_column::column_capacity(f.num_bin) by {
        assert(rows[i] == before[begin + i]);
    }
    arms_agree(arm, PartitionArm::HostGather, f, best, rows, 0, 1);
}

proof fn rows_all_readable(column: Seq<u32>, rows: Seq<u32>, num_bin: u32, from: int)
    requires
        0 <= from,
        forall|i: int| 0 <= i < rows.len() ==> #[trigger] rows[i] < column.len(),
    ensures
        data_partition::rows_readable(column, rows, num_bin, from),
    decreases rows.len() - from,
{
    if from < rows.len() {
        rows_all_readable(column, rows, num_bin, from + 1);
    }
}

/// Partition `count` rows of the permutation from `begin` on, in place, by the best split of
/// feature `f`. Returns the number of left rows.
pub fn partition_resident_range(
    arm: PartitionArm,
    perm: &mut Vec<u32>,
    begin: usize,
    count: usize,
    f: &GrowFeature,
    best: &SplitInfo,
    leaf_splits: &mut DeviceLeafSplits,
    leaf_id: usize,
) -> (r: Result<usize, ComputeError>)
    requires
        old(leaf_splits).wf(),
        begin + count <= old(perm)@.len() <= i32::MAX,
        forall|i: int| 0 <= i < old(perm)@.len() ==> #[trigger] old(perm)@[i] < f.bins@.len(),
        f.spec_partition_min_bin() <= u32::MAX,
        data_partition::threshold_fault(f.num_bin, best.threshold) is None ==> f.route(*best).sums_fit(
            count as nat,
        ),
    ensures
        final(leaf_splits).wf(),
        final(leaf_splits)@.len() == old(leaf_splits)@.len(),
        is_range_partition(
            arm,
            *f,
            *best,
            old(perm)@,
            final(perm)@,
            begin as int,
            count as int,
            leaf_id,
            old(leaf_splits)@.len(),
            r,
        ),
        r is Err ==> final(leaf_splits)@ == old(leaf_splits)@,
        r matches Ok(split_point) ==> is_table_after(
            arm,
            old(leaf_splits)@,
            final(leaf_splits)@,
            leaf_id as int,
            begin as int,
            count as int,
            split_point as int,
        ),
{
    let ghost rows = old(perm)@.subrange(begin as int, begin + count);
    let ghost marks = arm_marks(arm, *f, *best, rows);
    let mut range: Vec<u32> = Vec::with_capacity(count);
    let mut i: usize = 0;
    while i < count
        invariant
            i <= count,
            begin + count <= perm@.len() <= i32::MAX,
            rows == perm@.subrange(begin as int, begin + count),
            range@ == rows.take(i as int),
        decreases count - i,
    {
        range.push(perm[begin + i]);
        i += 1;
        assert(range@ =~= rows.take(i as int));
    }
    assert(range@ =~= rows);
    assert forall|k: int| 0 <= k < rows.len() implies #[trigger] rows[k] < f.bins@.len() by {
        assert(rows[k] == old(perm)@[begin + k]);
    }
    let min_bin: u32 = f.partition_min_bin();
    let missing_type: u8 = f.missing_type.code();
    let (reordered, split_point): (Vec<u32>, usize) = match arm {
        PartitionArm::HostFused => {
            proof {
                rows_all_readable(f.bins@, rows, f.num_bin, 0);
            }
            data_partition::partition_leaf_stable_fused(
                &f.bins,
                range.as_slice(),
                f.num_bin,
                min_bin,
                f.max_bin,
                f.default_bin,
                f.most_freq_bin,
                missing_type,
                best.default_left,
                best.threshold,
            )?
        },
        PartitionArm::HostGather => {
            let bins_sub = grow_driver::gather_leaf_bins(f, range.as_slice());
            data_partition::partition_leaf_stable(
                &bins_sub,
                range.as_slice(),
                f.num_bin,
                min_bin,
                f.max_bin,
                f.default_bin,
                f.most_freq_bin,
                missing_type,
                best.default_left,
                best.threshold,
            )?
        },
        PartitionArm::Device => {
            let bins_sub = grow_driver::gather_leaf_bins(f, range.as_slice());
            let rows_out = partition::partition_child_ranges_device(
                &bins_sub,
                range.as_slice(),
                f.num_bin,
                min_bin,
                f.max_bin,
                f.default_bin,
                f.most_freq_bin,
                missing_type,
                best.default_left,
                best.threshold,
                leaf_splits,
                leaf_id,
                begin as i32,
                count as i32,
            )?;
            let sp: usize = leaf_splits.read_leaf(leaf_id).left_count as usize;
            (rows_out, sp)
        },
    };
    proof {
        stable::chosen_len(rows, marks, true);
        stable::chosen_len(rows, marks, false);
        stable::tallies_sum(marks);
    }
    let mut i: usize = 0;
    while i < count
        invariant
            i <= count,
            begin + count <= perm@.len() <= i32::MAX,
            reordered@.len() == count,
            perm@.len() == old(perm)@.len(),
            forall|k: int| 0 <= k < i ==> perm@[begin + k] == #[trigger] reordered@[k],
            forall|k: int|
                0 <= k < perm@.len() && !(begin <= k < begin + count) ==> #[trigger] perm@[k] == old(perm)@[k],
        decreases count - i,
    {
        perm.set(begin + i, reordered[i]);
        i += 1;
    }
    assert(perm@.subrange(begin as int, begin + count) =~= reordered@);
    Ok(split_point)
}

/// One leaf of a resident growth: its span of the permutation, its sums, its histogram slot
/// and its depth.
#[derive(Debug, Clone, Copy, PartialEq, Eq, Structural)]
pub struct ResidentLeaf {
    pub row_begin: usize,
    pub row_count: usize,
    pub sum_g: Real64,
    pub sum_h: Real64,
    pub slot: usize,
    pub depth: i32,
}

/// What the frontier exports for the leaf it picked: the leaf or -1, and the split.
#[derive(Debug, Clone, Copy, PartialEq, Eq, Structural)]
pub struct PickExport {
    pub best_leaf: i32,
    pub real_feature: i32,
    pub best: SplitInfo,
}

/// A picked leaf with the position of its feature.
#[derive(Debug, Clone, Copy, PartialEq, Eq, Structural)]
pub struct PickedLeaf {
    pub leaf: usize,
    pub fpos: usize,
    pub best: SplitInfo,
}

/// One piece of device work after a split, in order.
#[derive(Debug, Clone, Copy, PartialEq, Eq, Structural)]
pub enum DeviceStep {
    /// Build the histogram of a leaf into its slot. `counted` marks a build whose scan is not
    /// shared with its sibling's.
    Build { leaf: usize, slot: usize, counted: bool },
    /// Build the histogram of a leaf into its slot with the single-owner kernel, and scan it
    /// in the same launch where `scan` holds.
    BuildAndScan { leaf: usize, slot: usize, scan: bool },
    /// Derive the larger child's histogram from the parent's and the smaller child's.
    Subtract { parent_slot: usize, smaller_slot: usize, larger_slot: usize },
    /// Scan both children in one launch.
    ScanSiblings { smaller: usize, larger: usize, smaller_slot: usize, larger_slot: usize },
    /// Scan one leaf.
    Scan { leaf: usize, slot: usize },
    /// Store that a leaf has no split.
    SeedNone { leaf: usize },
}

/// What is done about one split: the tree record, the children, and the device work.
#[derive(Debug, Clone)]
pub struct ResidentPlan {
    pub scalars: SplitScalars,
    pub real_threshold: Real64,
    pub missing_type_code: i32,
    pub left: usize,
    pub right: usize,
    pub smaller: usize,
    pub larger: usize,
    pub steps: Vec<DeviceStep>,
}

/// The last position of a real feature index among the first `n`, -1 where it does not occur.
pub open spec fn last_position(reals: Seq<i32>, feature: i32, n: int) -> int
    decreases n,
{
    if n <= 0 {
        -1
    } else if reals[n - 1] == feature {
        n - 1
    } else {
        last_position(reals, feature, n - 1)
    }
}

/// Where no real index occurs twice, a feature's position is found by its real index.
pub proof fn position_of_real_index(reals: Seq<i32>, n: int, i: int)
    requires
        0 <= i < n <= reals.len(),
        reals.no_duplicates(),
    ensures
        last_position(reals, reals[i], n) == i,
    decreases n,
{
    if i < n - 1 {
        assert(reals[n - 1] != reals[i]);
        position_of_real_index(reals, n - 1, i);
    }
}

/// The position of a feature by its real index.
pub fn feature_position(features: &[GrowFeature], feature: i32) -> (r: Option<usize>)
    ensures
        match r {
            Some(p) => p == last_position(
                grow_feature::real_indices(features@),
                feature,
                features@.len() as int,
            ) && p < features@.len(),
            None => last_position(
                grow_feature::real_indices(features@),
                feature,
                features@.len() as int,
            ) == -1,
        },
{
    let ghost reals = grow_feature::real_indices(features@);
    let mut n: usize = features.len();
    while n > 0
        invariant
            n <= features@.len(),
            reals == grow_feature::real_indices(features@),
            last_position(reals, feature, features@.len() as int) == last_position(
                reals,
                feature,
                n as int,
            ),
        decreases n,
    {
        if features[n - 1].real_feature_index == feature {
            return Some(n - 1);
        }
        n -= 1;
    }
    None
}

/// Whether a child is scanned for a further split.
pub open spec fn child_scannable(leaf: ResidentLeaf, min_data: i32, max_depth: i32) -> bool {
    &&& grow_driver::may_split(leaf.row_count as int, leaf.depth as int, min_data, max_depth)
    &&& leaf.sum_h.spec_above(Real64::spec_zero())
    &&& leaf.row_count > 0
}

/// The device work after a split. The smaller child is always built before the subtraction
/// that reads it.
pub open spec fn child_steps(
    smaller: usize,
    larger: usize,
    smaller_slot: usize,
    larger_slot: usize,
    smaller_scan: bool,
    larger_scan: bool,
    copack: bool,
    single_owner: bool,
) -> Seq<DeviceStep> {
    let subtract = DeviceStep::Subtract { parent_slot: larger_slot, smaller_slot, larger_slot };
    let larger_step = if larger_scan {
        DeviceStep::Scan { leaf: larger, slot: larger_slot }
    } else {
        DeviceStep::SeedNone { leaf: larger }
    };
    if copack && !single_owner && smaller_scan && larger_scan {
        seq![
            DeviceStep::Build { leaf: smaller, slot: smaller_slot, counted: false },
            subtract,
            DeviceStep::ScanSiblings { smaller, larger, smaller_slot, larger_slot },
        ]
    } else if single_owner {
        seq![
            DeviceStep::BuildAndScan { leaf: smaller, slot: smaller_slot, scan: smaller_scan },
            subtract,
            larger_step,
        ]
    } else {
        seq![
            DeviceStep::Build { leaf: smaller, slot: smaller_slot, counted: true },
            subtract,
            if smaller_scan {
                DeviceStep::Scan { leaf: smaller, slot: smaller_slot }
            } else {
                DeviceStep::SeedNone { leaf: smaller }
            },
            larger_step,
        ]
    }
}

/// The device work after a split.
pub fn plan_child_steps(
    smaller: usize,
    larger: usize,
    smaller_slot: usize,
    larger_slot: usize,
    smaller_scan: bool,
    larger_scan: bool,
    copack: bool,
    single_owner: bool,
) -> (steps: Vec<DeviceStep>)
    ensures
        steps@ == child_steps(
            smaller,
            larger,
            smaller_slot,
            larger_slot,
            smaller_scan,
            larger_scan,
            copack,
            single_owner,
        ),
{
    let mut steps: Vec<DeviceStep> = Vec::new();
    let subtract = DeviceStep::Subtract { parent_slot: larger_slot, smaller_slot, larger_slot };
    if copack && !single_owner && smaller_scan && larger_scan {
        steps.push(DeviceStep::Build { leaf: smaller, slot: smaller_slot, counted: false });
        steps.push(subtract);
        steps.push(DeviceStep::ScanSiblings { smaller, larger, smaller_slot, larger_slot });
    } else {
        if single_owner {
            steps.push(
                DeviceStep::BuildAndScan { leaf: smaller, slot: smaller_slot, scan: smaller_scan },
            );
            steps.push(subtract);
        } else {
            steps.push(DeviceStep::Build { leaf: smaller, slot: smaller_slot, counted: true });
            steps.push(subtract);
            if smaller_scan {
                steps.push(DeviceStep::Scan { leaf: smaller, slot: smaller_slot });
            } else {
                steps.push(DeviceStep::SeedNone { leaf: smaller });
            }
        }
        if larger_scan {
            steps.push(DeviceStep::Scan { leaf: larger, slot: larger_slot });
        } else {
            steps.push(DeviceStep::SeedNone { leaf: larger });
        }
    }
    assert(steps@ =~= child_steps(
        smaller,
        larger,
        smaller_slot,
        larger_slot,
        smaller_scan,
        larger_scan,
        copack,
        single_owner,
    ));
    steps
}

/// Whatever is decided about the scans, the smaller child is built first, the subtraction
/// follows and takes the larger child's slot for its parent, and no split takes more than four
/// launches, however many features there are.
pub proof fn build_precedes_subtract(
    smaller: usize,
    larger: usize,
    smaller_slot: usize,
    larger_slot: usize,
    smaller_scan: bool,
    larger_scan: bool,
    copack: bool,
    single_owner: bool,
)
    ensures
        ({
            let steps = child_steps(
                smaller,
                larger,
                smaller_slot,
                larger_slot,
                smaller_scan,
                larger_scan,
                copack,
                single_owner,
            );
            &&& 3 <= steps.len() <= 4
            &&& match steps[0] {
                DeviceStep::Build { leaf, slot, .. } => leaf == smaller && slot == smaller_slot,
                DeviceStep::BuildAndScan { leaf, slot, .. } => leaf == smaller && slot == smaller_slot,
                _ => false,
            }
            &&& steps[1] == (DeviceStep::Subtract {
                parent_slot: larger_slot,
                smaller_slot,
                larger_slot,
            })
        }),
{
}

/// The state of a resident growth.
#[verifier::ext_equal]
pub struct ResidentState {
    /// The row permutation.
    pub perm: Seq<u32>,
    pub leaves: Seq<ResidentLeaf>,
    pub num_leaves: int,
    pub max_depth: i32,
    pub min_data_in_leaf: i32,
}

/// A growth over resident buffers.
#[derive(Debug)]
pub struct ResidentGrow {
    perm: Vec<u32>,
    leaves: Vec<ResidentLeaf>,
    next_slot: usize,
    num_leaves: i32,
    max_depth: i32,
    min_data_in_leaf: i32,
}

impl View for ResidentGrow {
    type V = ResidentState;

    closed spec fn view(&self) -> ResidentState {
        ResidentState {
            perm: self.perm@,
            leaves: self.leaves@,
            num_leaves: self.num_leaves as int,
            max_depth: self.max_depth,
            min_data_in_leaf: self.min_data_in_leaf,
        }
    }
}

impl ResidentState {
    /// The rows of a leaf.
    pub open spec fn rows(self, l: int) -> Seq<u32> {
        self.perm.subrange(
            self.leaves[l].row_begin as int,
            self.leaves[l].row_begin + self.leaves[l].row_count,
        )
    }

    /// The leaves with their rows.
    pub open spec fn leaf_states(self) -> Seq<LeafState> {
        Seq::new(
            self.leaves.len(),
            |l: int|
                grow_driver::unsplit_leaf(
                    self.rows(l),
                    self.leaves[l].sum_g,
                    self.leaves[l].sum_h,
                    self.leaves[l].depth as int,
                ),
        )
    }

    /// The spans of two leaves do not overlap.
    pub open spec fn spans_apart(self, i: int, j: int) -> bool {
        ||| self.leaves[i].row_begin + self.leaves[i].row_count <= self.leaves[j].row_begin
        ||| self.leaves[j].row_begin + self.leaves[j].row_count <= self.leaves[i].row_begin
    }

    /// There are between one and `num_leaves` leaves. Their spans lie in the permutation and do
    /// not overlap, together they hold every row once, and their slots are the first ones, each
    /// used once.
    pub open spec fn wf(self) -> bool {
        &&& 1 <= self.leaves.len() <= self.num_leaves <= i32::MAX
        &&& self.perm.len() <= i32::MAX
        &&& self.perm.to_multiset() == partition::row_ids(self.perm.len()).to_multiset()
        &&& forall|l: int|
            0 <= l < self.leaves.len() ==> (#[trigger] self.leaves[l]).row_begin
                + self.leaves[l].row_count <= self.perm.len()
        &&& forall|l: int|
            0 <= l < self.leaves.len() ==> 0 <= (#[trigger] self.leaves[l]).depth < self.leaves.len()
        &&& forall|i: int, j: int|
            #![trigger self.leaves[i], self.leaves[j]]
            0 <= i < j < self.leaves.len() ==> self.spans_apart(i, j)
        &&& forall|l: int|
            0 <= l < self.leaves.len() ==> (#[trigger] self.leaves[l]).slot < self.leaves.len()
        &&& forall|i: int, j: int|
            #![trigger self.leaves[i], self.leaves[j]]
            0 <= i < j < self.leaves.len() ==> self.leaves[i].slot != self.leaves[j].slot
        &&& grow_driver::rows_of(self.leaf_states(), self.leaves.len() as int).to_multiset()
            == partition::row_ids(self.perm.len()).to_multiset()
    }

    /// The state after leaf `l` was split at `split_point` of its span, by a permutation `perm`:
    /// the smaller child gets the next slot, the larger one keeps the parent's.
    pub open spec fn after_split(self, l: int, perm: Seq<u32>, split_point: int, best: SplitInfo) -> ResidentState {
        let parent = self.leaves[l];
        let right_count = parent.row_count - split_point;
        let fresh = self.leaves.len() as usize;
        let left_smaller = split_point < right_count;
        let left = ResidentLeaf {
            row_begin: parent.row_begin,
            row_count: split_point as usize,
            sum_g: best.left_sum_gradient,
            sum_h: best.left_sum_hessian,
            slot: if left_smaller { fresh } else { parent.slot },
            depth: (parent.depth + 1) as i32,
        };
        let right = ResidentLeaf {
            row_begin: (parent.row_begin + split_point) as usize,
            row_count: right_count as usize,
            sum_g: best.right_sum_gradient,
            sum_h: best.right_sum_hessian,
            slot: if left_smaller { parent.slot } else { fresh },
            depth: (parent.depth + 1) as i32,
        };
        ResidentState { perm, leaves: self.leaves.update(l, left).push(right), ..self }
    }

    /// Each row of the data is in the span of exactly one leaf.
    pub proof fn each_row_once(self)
        requires
            self.wf(),
        ensures
            grow_driver::rows_of(self.leaf_states(), self.leaves.len() as int).no_duplicates(),
            forall|row: u32|
                row < self.perm.len() ==> #[trigger] grow_driver::rows_of(
                    self.leaf_states(),
                    self.leaves.len() as int,
                ).contains(row),
    {
        grow_driver::permutation_has_each_once(
            grow_driver::rows_of(self.leaf_states(), self.leaves.len() as int),
            self.perm.len(),
        );
    }

    /// Two leaves never share a histogram slot, and `num_leaves` slots are enough.
    pub proof fn slots_do_not_alias(self, i: int, j: int)
        requires
            self.wf(),
            0 <= i < self.leaves.len(),
            0 <= j < self.leaves.len(),
            i != j,
        ensures
            self.leaves[i].slot != self.leaves[j].slot,
            self.leaves[i].slot < self.num_leaves,
    {
        if j < i {
            assert(self.leaves[j].slot != self.leaves[i].slot);
        }
    }

    /// Splitting a leaf in place changes the leaves as a split on the host does: the left child has
    /// the left rows in their order and takes the leaf's place, the right child has the right rows
    /// in theirs and comes last, and every other leaf keeps its rows.
    pub proof fn split_matches_host(self, l: int, perm: Seq<u32>, marks: Seq<bool>, best: SplitInfo)
        requires
            self.wf(),
            0 <= l < self.leaves.len(),
            marks.len() == self.leaves[l].row_count,
            partition::span_partitioned(
                self.perm,
                perm,
                self.leaves[l].row_begin as int,
                self.rows(l),
                marks,
            ),
        ensures
            self.after_split(l, perm, stable::tally(marks, true) as int, best).leaf_states()
                == self.leaf_states().update(
                l,
                grow_driver::unsplit_leaf(
                    stable::chosen(self.rows(l), marks, true),
                    best.left_sum_gradient,
                    best.left_sum_hessian,
                    self.leaves[l].depth + 1,
                ),
            ).push(
                grow_driver::unsplit_leaf(
                    stable::chosen(self.rows(l), marks, false),
                    best.right_sum_gradient,
                    best.right_sum_hessian,
                    self.leaves[l].depth + 1,
                ),
            ),
    {
        let parent = self.leaves[l];
        let rows = self.rows(l);
        let sp = stable::tally(marks, true) as int;
        let next = self.after_split(l, perm, sp, best);
        let n = self.leaves.len() as int;
        let left = stable::chosen(rows, marks, true);
        let right = stable::chosen(rows, marks, false);
        stable::tallies_sum(marks);
        stable::chosen_len(rows, marks, true);
        stable::chosen_len(rows, marks, false);
        assert(parent.row_begin + parent.row_count <= self.perm.len());
        let part = stable::stable_partition(rows, marks);
        assert(perm.subrange(parent.row_begin as int, parent.row_begin + rows.len()) == part);
        assert(next.rows(l) =~= left) by {
            assert forall|k: int| 0 <= k < sp implies next.rows(l)[k] == left[k] by {
                assert(perm[parent.row_begin + k] == part[k]);
            }
        }
        assert(next.rows(n) =~= right) by {
            assert forall|k: int| 0 <= k < parent.row_count - sp implies next.rows(n)[k] == right[k] by {
                assert(perm[parent.row_begin + sp + k] == part[sp + k]);
            }
        }
        assert forall|i: int| 0 <= i < n && i != l implies #[trigger] next.leaf_states()[i] == self.leaf_states()[i] by {
            let a = self.leaves[i];
            assert(next.leaves[i] == a);
            assert(a.row_begin + a.row_count <= self.perm.len());
            if i < l {
                assert(self.spans_apart(i, l));
            } else {
                assert(self.spans_apart(l, i));
            }
            assert(next.rows(i) =~= self.rows(i));
        }
        assert(next.leaf_states() =~= self.leaf_states().update(
            l,
            grow_driver::unsplit_leaf(left, best.left_sum_gradient, best.left_sum_hessian, parent.depth + 1),
        ).push(
            grow_driver::unsplit_leaf(right, best.right_sum_gradient, best.right_sum_hessian, parent.depth + 1),
        ));
    }

    /// Reordering the span of a leaf leaves a well-formed state.
    pub proof fn reordering_is_wf(self, l: int, perm: Seq<u32>, marks: Seq<bool>)
        requires
            self.wf(),
            0 <= l < self.leaves.len(),
            marks.len() == self.leaves[l].row_count,
            partition::span_partitioned(
                self.perm,
                perm,
                self.leaves[l].row_begin as int,
                self.rows(l),
                marks,
            ),
        ensures
            (ResidentState { perm, ..self }).wf(),
    {
        let parent = self.leaves[l];
        let rows = self.rows(l);
        let next = ResidentState { perm, ..self };
        let n = self.leaves.len() as int;
        assert(parent.row_begin + parent.row_count <= self.perm.len());
        partition::span_partition_is_permutation(self.perm, perm, parent.row_begin as int, rows, marks);
        stable::partition_is_permutation(rows, marks);
        assert forall|i: int| 0 <= i < n implies (#[trigger] self.leaf_states()[i]).rows.to_multiset()
            == next.leaf_states()[i].rows.to_multiset() by {
            let a = self.leaves[i];
            assert(a.row_begin + a.row_count <= self.perm.len());
            if i == l {
                assert(next.rows(i) == stable::stable_partition(rows, marks));
            } else {
                if i < l {
                    assert(self.spans_apart(i, l));
                } else {
                    assert(self.spans_apart(l, i));
                }
                assert(next.rows(i) =~= self.rows(i));
            }
        }
        grow_driver::equal_rows_add_up(self.leaf_states(), next.leaf_states(), n);
        assert forall|i: int, j: int|
            #![trigger next.leaves[i], next.leaves[j]]
            0 <= i < j < next.leaves.len() implies next.spans_apart(i, j) by {
            let a = self.leaves[i];
            let b = self.leaves[j];
            assert(self.spans_apart(i, j));
        }
    }

    /// Splitting a leaf of a well-formed state by a partition of its span leaves a well-formed
    /// state.
    pub proof fn split_is_wf(self, l: int, perm: Seq<u32>, marks: Seq<bool>, best: SplitInfo)
        requires
            self.wf(),
            self.leaves.len() < self.num_leaves,
            0 <= l < self.leaves.len(),
            marks.len() == self.leaves[l].row_count,
            partition::span_partitioned(
                self.perm,
                perm,
                self.leaves[l].row_begin as int,
                self.rows(l),
                marks,
            ),
        ensures
            self.after_split(l, perm, stable::tally(marks, true) as int, best).wf(),
    {
        let parent = self.leaves[l];
        let rows = self.rows(l);
        let sp = stable::tally(marks, true) as int;
        let next = self.after_split(l, perm, sp, best);
        let n = self.leaves.len() as int;
        stable::tallies_sum(marks);
        assert(parent.row_begin + parent.row_count <= self.perm.len());
        partition::span_partition_is_permutation(self.perm, perm, parent.row_begin as int, rows, marks);
        stable::partition_is_permutation(rows, marks);
        let part = stable::stable_partition(rows, marks);
        assert(perm.subrange(parent.row_begin as int, parent.row_begin + rows.len()) == part);
        assert(next.rows(l) =~= part.take(sp));
        assert(next.rows(n) =~= part.skip(sp)) by {
            assert forall|k: int| 0 <= k < parent.row_count - sp implies next.rows(n)[k] == part.skip(sp)[k] by {
                assert(perm[parent.row_begin + sp + k] == part[sp + k]);
            }
        }
        assert forall|i: int, j: int|
            #![trigger next.leaves[i], next.leaves[j]]
            0 <= i < j < next.leaves.len() implies next.spans_apart(i, j) by {
            if i != l && j < n && j != l {
                assert(self.spans_apart(i, j)) by {
                    let a = self.leaves[i];
                    let b = self.leaves[j];
                }
            } else if j == n && i != l {
                if i < l {
                    let a = self.leaves[i];
                    assert(self.spans_apart(i, l));
                } else {
                    let a = self.leaves[i];
                    assert(self.spans_apart(l, i));
                }
            } else if i == l && j < n {
                let b = self.leaves[j];
                assert(self.spans_apart(l, j));
            } else if j == l {
                let a = self.leaves[i];
                assert(self.spans_apart(i, l));
            }
        }
        assert forall|i: int, j: int|
            #![trigger next.leaves[i], next.leaves[j]]
            0 <= i < j < next.leaves.len() implies next.leaves[i].slot != next.leaves[j].slot by {
            if j < n {
                let a = self.leaves[i];
                let b = self.leaves[j];
                assert(self.leaves[i].slot != self.leaves[j].slot);
                assert(self.leaves[i].slot < n && self.leaves[j].slot < n);
            } else if i != l {
                assert(self.leaves[i].slot < n);
                if i < l {
                    assert(self.leaves[i].slot != self.leaves[l].slot);
                } else {
                    assert(self.leaves[l].slot != self.leaves[i].slot);
                }
            } else {
                assert(self.leaves[l].slot < n);
            }
        }
        let before = self.leaf_states();
        let left = next.leaf_states()[l];
        let right = next.leaf_states()[n];
        assert(left.rows + right.rows =~= part);
        grow_driver::split_keeps_rows(before, l, left, right);
        let target = before.update(l, left).push(right);
        assert forall|i: int| 0 <= i < n + 1 implies (#[trigger] target[i]).rows == next.leaf_states()[i].rows by {
            if i < n && i != l {
                assert(next.leaves[i] == self.leaves[i]);
                assert(next.rows(i) =~= self.rows(i)) by {
                    let a = self.leaves[i];
                    if i < l {
                        assert(self.spans_apart(i, l));
                    } else {
                        assert(self.spans_apart(l, i));
                    }
                    assert(a.row_begin + a.row_count <= self.perm.len());
                    assert forall|k: int| 0 <= k < a.row_count implies next.rows(i)[k] == self.rows(i)[k] by {
                        assert(perm[a.row_begin + k] == self.perm[a.row_begin + k]);
                    }
                }
            }
        }
        grow_driver::rows_of_prefix(target, next.leaf_states(), n + 1);
    }
}

/// The text of the fault of a picked feature that the growth does not have.
pub open spec fn unknown_feature_text(feature: i32) -> Seq<char> {
    "grow_tree_on_device_resident: picked real feature index "@ + text::signed_decimal(feature as int)
        + " has no feature-position in the grow feature set (reverse-lookup miss)"@
}

/// The text of the fault of a threshold that has no upper bound.
pub open spec fn resident_bound_text(threshold: u32, f: GrowFeature) -> Seq<char> {
    "grow_tree_on_device_resident: split threshold bin index "@ + text::decimal(threshold as nat)
        + " out of range for feature "@ + text::signed_decimal(f.real_feature_index as int)
        + " bin_upper_bound (len "@ + text::decimal(f.bin_upper_bound@.len()) + ")"@
}

/// The fault of splitting a resident leaf.
pub open spec fn resident_split_fault(
    arm: PartitionArm,
    f: GrowFeature,
    best: SplitInfo,
    rows: Seq<u32>,
    leaf_id: usize,
    num_leaves: nat,
) -> Option<Fault> {
    if arm_fault(arm, f, best, rows, leaf_id, num_leaves) is Some {
        arm_fault(arm, f, best, rows, leaf_id, num_leaves)
    } else if best.threshold >= f.bin_upper_bound@.len() {
        Some(Fault::Runtime(resident_bound_text(best.threshold, f)))
    } else {
        None
    }
}

/// The record of a resident split.
pub open spec fn resident_record(
    leaf: int,
    f: GrowFeature,
    best: SplitInfo,
    recorded_gain: Real64,
    left_count: int,
    right_count: int,
) -> SplitScalars {
    SplitScalars {
        is_valid: true,
        leaf_index: leaf as i32,
        gain: recorded_gain,
        inner_feature_index: f.real_feature_index,
        threshold: best.threshold,
        default_left: best.default_left,
        left_sum_gradients: best.left_sum_gradient,
        left_sum_hessians: best.left_sum_hessian,
        left_sum_gh_quant: 0,
        left_count: left_count as i32,
        left_gain: Real64::spec_zero(),
        left_value: best.left_output,
        right_sum_gradients: best.right_sum_gradient,
        right_sum_hessians: best.right_sum_hessian,
        right_sum_gh_quant: 0,
        right_count: right_count as i32,
        right_gain: Real64::spec_zero(),
        right_value: best.right_output,
        num_cat_threshold: 0,
    }
}

impl ResidentGrow {
    /// The leaves are well formed, and the next slot is the first unused one.
    pub closed spec fn wf(&self) -> bool {
        &&& self@.wf()
        &&& self.next_slot == self.leaves@.len()
    }

    /// The leaves of a well-formed growth are well formed.
    pub proof fn leaves_are_well_formed(&self)
        requires
            self.wf(),
        ensures
            self@.wf(),
    {
    }

    /// Start a growth at the root, whose rows are all rows in order and whose slot is the first.
    pub fn start(
        num_leaves: i32,
        max_depth: i32,
        min_data_in_leaf: i32,
        num_data: usize,
        root_sum_g: &ShownNumber,
        root_sum_h: &ShownNumber,
    ) -> (r: Result<ResidentGrow, ComputeError>)
        requires
            num_leaves >= 1,
            num_data <= i32::MAX,
        ensures
            error::fails_as(r, grow_driver::root_seed_fault(*root_sum_g, *root_sum_h)),
            r matches Ok(g) ==> g.wf() && g@ == (ResidentState {
                perm: partition::row_ids(num_data as nat),
                leaves: seq![
                    ResidentLeaf {
                        row_begin: 0,
                        row_count: num_data,
                        sum_g: root_sum_g.value,
                        sum_h: root_sum_h.value,
                        slot: 0,
                        depth: 0,
                    },
                ],
                num_leaves: num_leaves as int,
                max_depth,
                min_data_in_leaf,
            }),
    {
        grow_driver::check_root_seed_finite(root_sum_g, root_sum_h)?;
        let mut leaves: Vec<ResidentLeaf> = Vec::new();
        leaves.push(
            ResidentLeaf {
                row_begin: 0,
                row_count: num_data,
                sum_g: root_sum_g.value,
                sum_h: root_sum_h.value,
                slot: 0,
                depth: 0,
            },
        );
        let g = ResidentGrow {
            perm: partition::iota_u32(num_data),
            leaves,
            next_slot: 1,
            num_leaves,
            max_depth,
            min_data_in_leaf,
        };
        proof {
            let s = g@;
            assert(s.leaves =~= seq![s.leaves[0]]);
            assert(s.rows(0) =~= s.perm);
            assert(grow_driver::rows_of(s.leaf_states(), 0) =~= Seq::<u32>::empty());
            assert(grow_driver::rows_of(s.leaf_states(), 1) =~= s.perm);
        }
        Ok(g)
    }

    /// How many leaves there are.
    pub fn leaf_count(&self) -> (n: usize)
        ensures
            n == self@.leaves.len(),
    {
        self.leaves.len()
    }

    /// Whether another split fits the leaf limit.
    pub fn has_room(&self) -> (r: bool)
        requires
            self.wf(),
        ensures
            r == (self@.leaves.len() < self@.num_leaves),
    {
        self.leaves.len() < self.num_leaves as usize
    }

    /// What is known of one leaf.
    pub fn leaf(&self, l: usize) -> (leaf: ResidentLeaf)
        requires
            l < self@.leaves.len(),
        ensures
            leaf == self@.leaves[l as int],
    {
        self.leaves[l]
    }

    /// The rows of one leaf.
    pub fn leaf_rows(&self, l: usize) -> (rows: &[u32])
        requires
            self.wf(),
            l < self@.leaves.len(),
        ensures
            rows@ == self@.rows(l as int),
    {
        let leaf: ResidentLeaf = self.leaves[l];
        assert(leaf == self@.leaves[l as int]);
        let rows = &self.perm.as_slice()[leaf.row_begin..leaf.row_begin + leaf.row_count];
        rows
    }

    /// Read what the frontier exported: the leaf to split with the position of its feature, or
    /// `None` where growth stops because no leaf was picked or its gain is not positive.
    pub fn take_pick(&self, features: &[GrowFeature], export: &PickExport) -> (r: Result<
        Option<PickedLeaf>,
        ComputeError,
    >)
        requires
            export.best_leaf < self@.leaves.len(),
        ensures
            ({
                let p = last_position(
                    grow_feature::real_indices(features@),
                    export.real_feature,
                    features@.len() as int,
                );
                &&& error::fails_as(
                    r,
                    if export.best_leaf >= 0 && p < 0 {
                        Some(Fault::Runtime(unknown_feature_text(export.real_feature)))
                    } else {
                        None
                    },
                )
                &&& r matches Ok(pick) ==> match pick {
                    None => export.best_leaf < 0 || !export.best.gain.spec_above(Real64::spec_zero()),
                    Some(picked) => {
                        &&& export.best_leaf >= 0
                        &&& export.best.gain.spec_above(Real64::spec_zero())
                        &&& picked.leaf == export.best_leaf
                        &&& picked.leaf < self@.leaves.len()
                        &&& picked.fpos == p
                        &&& picked.fpos < features@.len()
                        &&& picked.best == export.best
                    },
                }
            }),
    {
        if export.best_leaf < 0 {
            return Ok(None);
        }
        match feature_position(features, export.real_feature) {
            None => {
                let mut detail: String =
                    "grow_tree_on_device_resident: picked real feature index ".to_owned();
                text::push_signed_decimal(&mut detail, export.real_feature as i64);
                detail.append(" has no feature-position in the grow feature set (reverse-lookup miss)");
                Err(ComputeError::Runtime { detail })
            },
            Some(fpos) => {
                if !export.best.gain.above(Real64::zero()) {
                    Ok(None)
                } else {
                    Ok(
                        Some(
                            PickedLeaf {
                                leaf: export.best_leaf as usize,
                                fpos,
                                best: export.best,
                            },
                        ),
                    )
                }
            },
        }
    }

    /// Whether a leaf is scanned for a further split.
    pub fn scannable(&self, l: usize) -> (r: bool)
        requires
            self.wf(),
            l < self@.leaves.len(),
        ensures
            r == child_scannable(
                self@.leaves[l as int],
                self@.min_data_in_leaf,
                self@.max_depth,
            ),
    {
        let leaf: ResidentLeaf = self.leaves[l];
        assert(leaf == self@.leaves[l as int]);
        let rows: i32 = leaf.row_count as i32;
        rows >= grow_driver::doubled_min_data(self.min_data_in_leaf) && !(self.max_depth > 0
            && leaf.depth >= self.max_depth) && leaf.sum_h.above(Real64::zero()) && rows > 0
    }

    /// Split a picked leaf: partition its span in place, give the smaller child a fresh slot and
    /// the larger one the parent's, and plan the device work. `copack` lets both children share
    /// a scan; `single_owner` builds with the single-owner kernel. A partition that is refused
    /// changes nothing; a threshold without an upper bound is found out once the span has been
    /// partitioned, and leaves the leaves as they were, with the rows of that one reordered.
    pub fn split_leaf(
        &mut self,
        features: &[GrowFeature],
        picked: &PickedLeaf,
        recorded_gain: Real64,
        arm: PartitionArm,
        leaf_splits: &mut DeviceLeafSplits,
        copack: bool,
        single_owner: bool,
    ) -> (r: Result<ResidentPlan, ComputeError>)
        requires
            old(self).wf(),
            old(leaf_splits).wf(),
            old(self)@.leaves.len() < old(self)@.num_leaves,
            picked.leaf < old(self)@.leaves.len(),
            picked.fpos < features@.len(),
            grow_driver::features_cover(features@, old(self)@.perm.len()),
            features@[picked.fpos as int].spec_partition_min_bin() <= u32::MAX,
            data_partition::threshold_fault(
                features@[picked.fpos as int].num_bin,
                picked.best.threshold,
            ) is None ==> features@[picked.fpos as int].route(picked.best).sums_fit(
                old(self)@.leaves[picked.leaf as int].row_count as nat,
            ),
        ensures
            final(self).wf(),
            final(leaf_splits).wf(),
            final(leaf_splits)@.len() == old(leaf_splits)@.len(),
            ({
                let f = features@[picked.fpos as int];
                let l = picked.leaf as int;
                let rows = old(self)@.rows(l);
                let marks = arm_marks(arm, f, picked.best, rows);
                let sp = stable::tally(marks, true) as int;
                let parent = old(self)@.leaves[l];
                let refused = arm_fault(
                    arm,
                    f,
                    picked.best,
                    rows,
                    picked.leaf,
                    old(leaf_splits)@.len(),
                ) is Some;
                &&& error::fails_as(
                    r,
                    resident_split_fault(
                        arm,
                        f,
                        picked.best,
                        rows,
                        picked.leaf,
                        old(leaf_splits)@.len(),
                    ),
                )
                &&& refused ==> final(self)@ == old(self)@ && final(leaf_splits)@ == old(leaf_splits)@
                &&& !refused ==> {
                    &&& partition::span_partitioned(
                        old(self)@.perm,
                        final(self)@.perm,
                        parent.row_begin as int,
                        rows,
                        marks,
                    )
                    &&& is_table_after(
                        arm,
                        old(leaf_splits)@,
                        final(leaf_splits)@,
                        l,
                        parent.row_begin as int,
                        parent.row_count as int,
                        sp,
                    )
                }
                &&& r is Err ==> final(self)@ == (ResidentState { perm: final(self)@.perm, ..old(self)@ })
                &&& r matches Ok(plan) ==> {
                    let left_smaller = sp < parent.row_count - sp;
                    let smaller_slot = old(self)@.leaves.len() as usize;
                    &&& final(self)@ == old(self)@.after_split(l, final(self)@.perm, sp, picked.best)
                    &&& plan.left == picked.leaf
                    &&& plan.right == old(self)@.leaves.len()
                    &&& plan.smaller == (if left_smaller { plan.left } else { plan.right })
                    &&& plan.larger == (if left_smaller { plan.right } else { plan.left })
                    &&& plan.real_threshold == f.bin_upper_bound@[picked.best.threshold as int]
                    &&& plan.missing_type_code == f.missing_type.spec_code()
                    &&& plan.scalars == resident_record(
                        l,
                        f,
                        picked.best,
                        recorded_gain,
                        sp,
                        parent.row_count - sp,
                    )
                    &&& plan.steps@ == child_steps(
                        plan.smaller,
                        plan.larger,
                        smaller_slot,
                        parent.slot,
                        child_scannable(
                            final(self)@.leaves[plan.smaller as int],
                            final(self)@.min_data_in_leaf,
                            final(self)@.max_depth,
                        ),
                        child_scannable(
                            final(self)@.leaves[plan.larger as int],
                            final(self)@.min_data_in_leaf,
                            final(self)@.max_depth,
                        ),
                        copack,
                        single_owner,
                    )
                }
            }),
    {
        let f = &features[picked.fpos];
        let ghost before = self@;
        let leaf: usize = picked.leaf;
        let parent: ResidentLeaf = self.leaves[leaf];
        assert(parent == before.leaves[leaf as int]);
        proof {
            partition::permutation_in_range(before.perm, before.perm.len());
            assert(features@[picked.fpos as int].bins@.len() >= before.perm.len());
        }
        let p_begin: usize = parent.row_begin;
        let p_count: usize = parent.row_count;
        let split_point: usize = partition_resident_range(
            arm,
            &mut self.perm,
            p_begin,
            p_count,
            f,
            &picked.best,
            leaf_splits,
            leaf,
        )?;
        let index: usize = picked.best.threshold as usize;
        if index >= f.bin_upper_bound.len() {
            let mut detail: String =
                "grow_tree_on_device_resident: split threshold bin index ".to_owned();
            text::push_decimal(&mut detail, picked.best.threshold as u64);
            detail.append(" out of range for feature ");
            text::push_signed_decimal(&mut detail, f.real_feature_index as i64);
            detail.append(" bin_upper_bound (len ");
            text::push_decimal(&mut detail, f.bin_upper_bound.len() as u64);
            detail.append(")");
            proof {
                let rows = before.rows(leaf as int);
                let marks = arm_marks(arm, *f, picked.best, rows);
                before.reordering_is_wf(leaf as int, self.perm@, marks);
                assert(self@ =~= (ResidentState { perm: self.perm@, ..before }));
            }
            return Err(ComputeError::Runtime { detail });
        }
        let real_threshold: Real64 = f.bin_upper_bound[index];
        let right_count: usize = p_count - split_point;
        let new_right: usize = self.leaves.len();
        let left_smaller = split_point < right_count;
        let smaller_slot: usize = self.next_slot;
        let larger_slot: usize = parent.slot;
        let child_depth: i32 = parent.depth + 1;
        let left = ResidentLeaf {
            row_begin: p_begin,
            row_count: split_point,
            sum_g: picked.best.left_sum_gradient,
            sum_h: picked.best.left_sum_hessian,
            slot: if left_smaller {
                smaller_slot
            } else {
                larger_slot
            },
            depth: child_depth,
        };
        let right = ResidentLeaf {
            row_begin: p_begin + split_point,
            row_count: right_count,
            sum_g: picked.best.right_sum_gradient,
            sum_h: picked.best.right_sum_hessian,
            slot: if left_smaller {
                larger_slot
            } else {
                smaller_slot
            },
            depth: child_depth,
        };
        self.leaves.set(leaf, left);
        self.leaves.push(right);
        self.next_slot = smaller_slot + 1;
        proof {
            let rows = before.rows(leaf as int);
            let marks = arm_marks(arm, *f, picked.best, rows);
            before.split_is_wf(leaf as int, self.perm@, marks, picked.best);
            assert(self@ =~= before.after_split(
                leaf as int,
                self.perm@,
                split_point as int,
                picked.best,
            ));
        }
        let (smaller, larger): (usize, usize) = if left_smaller {
            (leaf, new_right)
        } else {
            (new_right, leaf)
        };
        let steps = plan_child_steps(
            smaller,
            larger,
            smaller_slot,
            larger_slot,
            self.scannable(smaller),
            self.scannable(larger),
            copack,
            single_owner,
        );
        let scalars = SplitScalars {
            is_valid: true,
            leaf_index: leaf as i32,
            gain: recorded_gain,
            inner_feature_index: f.real_feature_index,
            threshold: picked.best.threshold,
            default_left: picked.best.default_left,
            left_sum_gradients: picked.best.left_sum_gradient,
            left_sum_hessians: picked.best.left_sum_hessian,
            left_sum_gh_quant: 0,
            left_count: split_point as i32,
            left_gain: Real64::zero(),
            left_value: picked.best.left_output,
            right_sum_gradients: picked.best.right_sum_gradient,
            right_sum_hessians: picked.best.right_sum_hessian,
            right_sum_gh_quant: 0,
            right_count: right_count as i32,
            right_gain: Real64::zero(),
            right_value: picked.best.right_output,
            num_cat_threshold: 0,
        };
        Ok(
            ResidentPlan {
                scalars,
                real_threshold,
                missing_type_code: f.missing_type.code() as i32,
                left: leaf,
                right: new_right,
                smaller,
                larger,
                steps,
            },
        )
    }

    /// The rows of the first `final_leaves` leaves, grouped by leaf.
    pub fn layout(&self, final_leaves: usize) -> (layout: LeafPartitionLayout)
        requires
            self.wf(),
        ensures
            ({
                let k = if final_leaves < self@.leaves.len() {
                    final_leaves as int
                } else {
                    self@.leaves.len() as int
                };
                &&& layout.num_data == self@.perm.len()
                &&& layout.indices@ == grow_driver::rows_of(self@.leaf_states(), k)
                &&& layout.leaf_begin@.len() == k
                &&& layout.leaf_count@.len() == k
                &&& forall|i: int|
                    0 <= i < k ==> #[trigger] layout.leaf_begin@[i] == grow_driver::rows_of(
                        self@.leaf_states(),
                        i,
                    ).len()
                &&& forall|i: int|
                    0 <= i < k ==> #[trigger] layout.leaf_count@[i] == self@.leaves[i].row_count
            }),
    {
        let k: usize = if final_leaves < self.leaves.len() {
            final_leaves
        } else {
            self.leaves.len()
        };
        let ghost states = self@.leaf_states();
        let mut indices: Vec<u32> = Vec::with_capacity(self.perm.len());
        let mut leaf_begin: Vec<i32> = Vec::with_capacity(k);
        let mut leaf_count: Vec<i32> = Vec::with_capacity(k);
        let mut i: usize = 0;
        while i < k
            invariant
                i <= k,
                k <= self@.leaves.len(),
                self.wf(),
                states == self@.leaf_states(),
                indices@ == grow_driver::rows_of(states, i as int),
                leaf_begin@.len() == i,
                leaf_count@.len() == i,
                forall|j: int|
                    0 <= j < i ==> #[trigger] leaf_begin@[j] == grow_driver::rows_of(states, j).len(),
                forall|j: int| 0 <= j < i ==> #[trigger] leaf_count@[j] == self@.leaves[j].row_count,
            decreases k - i,
        {
            proof {
                partition::permutation_in_range(
                    grow_driver::rows_of(states, self@.leaves.len() as int),
                    self@.perm.len(),
                );
                grow_driver::rows_of_grows(states, i as int, self@.leaves.len() as int);
                assert(self@.leaves[i as int].row_begin + self@.leaves[i as int].row_count
                    <= self@.perm.len());
            }
            leaf_begin.push(indices.len() as i32);
            leaf_count.push(self.leaves[i].row_count as i32);
            grow_driver::append_copy(&mut indices, self.leaf_rows(i));
            i += 1;
        }
        LeafPartitionLayout { num_data: self.perm.len() as i32, indices, leaf_begin, leaf_count }
    }
}

} // verus!
