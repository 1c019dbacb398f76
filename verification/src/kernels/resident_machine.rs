//! The order of work of a growth over resident buffers: each step takes what the last piece of
//! device work returned and names the next one.
//!
//! The root is built and scanned, and its winner goes to the frontier. Then, as long as there is
//! room for another leaf and the frontier picks one: the leaf's span is partitioned, the tree is
//! changed, and the children are built, derived and scanned into the frontier.
use crate::error;
use crate::error::{ComputeError, Fault};
use crate::gain::SplitInfo;
use crate::kernels::data_partition;
use crate::kernels::grow_driver;
use crate::kernels::grow_feature;
use crate::kernels::grow_feature::GrowFeature;
use crate::kernels::grow_resident;
use crate::kernels::grow_resident::{DeviceStep, PartitionArm, PickExport, PickedLeaf, ResidentGrow, ResidentPlan};
use crate::kernels::grow_resident::ResidentState;
use crate::kernels::knobs;
use crate::kernels::partition;
use crate::kernels::partition::{ChildRanges, DeviceLeafSplits};
use crate::kernels::split_info::SplitScalars;
use crate::kernels::split_order;
use crate::number::Real64;
use crate::stable;
use vstd::prelude::*;

verus! {

/// Whether the columns are uploaded for a growth: unless they are there already and may be reused.
pub fn uploads_bins(hoist_switch: Option<&str>, already_there: bool) -> (r: bool)
    ensures
        r == !(already_there && !(hoist_switch matches Some(s) && s@ == "0"@)),
{
    !(knobs::ondevice_bin_hoist_enabled(hoist_switch) && already_there)
}

/// The region of each feature: first cell, bins, offset and most frequent bin.
pub open spec fn spec_fix_regions(features: Seq<GrowFeature>, slot_off: Seq<usize>) -> Seq<(usize, u32, i32, u32)> {
    Seq::new(
        features.len(),
        |i: int| (slot_off[i], features[i].num_bin, features[i].offset, features[i].most_freq_bin),
    )
}

/// The region of each feature: first cell, bins, offset and most frequent bin.
pub fn fix_regions(features: &[GrowFeature], slot_off: &[usize]) -> (regions: Vec<(usize, u32, i32, u32)>)
    requires
        slot_off@.len() == features@.len(),
    ensures
        regions@ == spec_fix_regions(features@, slot_off@),
{
    let mut regions: Vec<(usize, u32, i32, u32)> = Vec::with_capacity(features.len());
    let mut i: usize = 0;
    while i < features.len()
        invariant
            i <= features@.len(),
            slot_off@.len() == features@.len(),
            regions@ == spec_fix_regions(features@, slot_off@).take(i as int),
        decreases features@.len() - i,
    {
        let f: &GrowFeature = &features[i];
        regions.push((slot_off[i], f.num_bin, f.offset, f.most_freq_bin));
        i += 1;
        assert(regions@ =~= spec_fix_regions(features@, slot_off@).take(i as int));
    }
    assert(regions@ =~= spec_fix_regions(features@, slot_off@));
    regions
}

/// The record of a leaf's winner in the frontier. A winner without a gain above negative infinity
/// is no split.
pub open spec fn spec_frontier_record(leaf: usize, winner: SplitInfo, feature: i32) -> SplitScalars {
    SplitScalars {
        is_valid: winner.gain.spec_above(Real64::spec_neg_infinity()),
        leaf_index: leaf as i32,
        gain: winner.gain,
        inner_feature_index: feature,
        threshold: winner.threshold,
        default_left: winner.default_left,
        left_sum_gradients: winner.left_sum_gradient,
        left_sum_hessians: winner.left_sum_hessian,
        left_value: winner.left_output,
        right_sum_gradients: winner.right_sum_gradient,
        right_sum_hessians: winner.right_sum_hessian,
        right_value: winner.right_output,
        ..SplitScalars::spec_empty()
    }
}

/// The record of a leaf's winner in the frontier.
pub fn frontier_record(leaf: usize, winner: &SplitInfo, feature: i32) -> (record: SplitScalars)
    ensures
        record == spec_frontier_record(leaf, *winner, feature),
{
    let mut record: SplitScalars = SplitScalars::default();
    record.is_valid = winner.gain.above(Real64::neg_infinity());
    record.leaf_index = leaf as i32;
    record.gain = winner.gain;
    record.inner_feature_index = feature;
    record.threshold = winner.threshold;
    record.default_left = winner.default_left;
    record.left_sum_gradients = winner.left_sum_gradient;
    record.left_sum_hessians = winner.left_sum_hessian;
    record.left_value = winner.left_output;
    record.right_sum_gradients = winner.right_sum_gradient;
    record.right_sum_hessians = winner.right_sum_hessian;
    record.right_value = winner.right_output;
    record
}

/// The record of no split is not valid, so the frontier never picks it.
pub proof fn no_split_is_never_valid(leaf: usize, feature: i32)
    ensures
        !spec_frontier_record(leaf, SplitInfo::spec_none(), feature).is_valid,
{
}

/// The device work of the root: built and scanned in one launch, or built and then scanned where
/// its sums allow a split.
pub open spec fn root_steps(scan: bool, single_owner: bool) -> Seq<DeviceStep> {
    if single_owner {
        seq![DeviceStep::BuildAndScan { leaf: 0, slot: 0, scan: true }]
    } else if scan {
        seq![
            DeviceStep::Build { leaf: 0, slot: 0, counted: true },
            DeviceStep::Scan { leaf: 0, slot: 0 },
        ]
    } else {
        seq![DeviceStep::Build { leaf: 0, slot: 0, counted: true }]
    }
}

/// What a resident growth waits for.
#[derive(Debug, Clone, Copy, PartialEq, Eq, Structural)]
pub enum ResidentPhase {
    /// The root to be built and scanned.
    Root,
    /// The root's winner to be stored in the frontier.
    RootSeed,
    /// The leaf that the frontier picks.
    Pick,
    /// The device work of a split.
    Split,
    /// Nothing: the tree is grown.
    Done,
}

/// What a piece of device work returned.
#[derive(Debug, Clone, Copy, PartialEq, Eq, Structural)]
pub enum ResidentEvent {
    /// The winner of the root and the position of its feature, or -1. A root that was not scanned
    /// has no winner.
    RootScanned { best: SplitInfo, best_fpos: i32 },
    /// The leaf that the frontier picked, the gain to record, and how its rows are to be
    /// partitioned.
    Picked { export: PickExport, recorded_gain: Real64, arm: PartitionArm },
    /// The work is done.
    Finished,
}

/// The next piece of device work.
#[derive(Debug, Clone)]
pub enum ResidentAction {
    /// Build and scan the root.
    Root { steps: Vec<DeviceStep> },
    /// Store a record in a leaf's place in the frontier.
    Seed { leaf: usize, record: SplitScalars },
    /// Let the frontier pick among the leaves. The places of the two leaves are those that the last
    /// split filled, -1 for none.
    Pick { prev_smaller: i32, prev_larger: i32, leaves: usize },
    /// Change the tree and carry out the steps of a split.
    Split { plan: ResidentPlan },
    /// Read the tree back.
    Finish,
}

/// The event answers the phase.
pub open spec fn resident_event_answers(phase: ResidentPhase, event: ResidentEvent) -> bool {
    match phase {
        ResidentPhase::Root => event is RootScanned,
        ResidentPhase::RootSeed => event is Finished,
        ResidentPhase::Pick => event is Picked,
        ResidentPhase::Split => event is Finished,
        ResidentPhase::Done => false,
    }
}

/// A resident growth in progress.
#[derive(Debug)]
pub struct ResidentMachine {
    grow: ResidentGrow,
    leaf_splits: DeviceLeafSplits,
    phase: ResidentPhase,
    prev_smaller: i32,
    prev_larger: i32,
    copack: bool,
    single_owner: bool,
}

impl ResidentMachine {
    /// The leaves of the growth.
    pub closed spec fn state(&self) -> ResidentState {
        self.grow@
    }

    /// What the growth waits for.
    pub closed spec fn spec_phase(&self) -> ResidentPhase {
        self.phase
    }

    /// The places in the frontier that the last split filled.
    pub closed spec fn filled(&self) -> (i32, i32) {
        (self.prev_smaller, self.prev_larger)
    }

    /// The table of child ranges that partitions on the device fill.
    pub closed spec fn table(&self) -> Seq<ChildRanges> {
        self.leaf_splits@
    }

    /// Whether children may share a scan.
    pub closed spec fn shares_scans(&self) -> bool {
        self.copack
    }

    /// Whether leaves are built and scanned in one launch.
    pub closed spec fn is_single_owner(&self) -> bool {
        self.single_owner
    }

    /// The leaves are well formed, and while a leaf is being picked there is room for another one.
    pub closed spec fn wf(&self) -> bool {
        &&& self.grow.wf()
        &&& self.leaf_splits.wf()
        &&& self.phase is Pick ==> self.grow@.leaves.len() < self.grow@.num_leaves
    }

    /// The leaves of a well-formed growth are well formed, and there is room for another leaf while
    /// one is being picked.
    pub proof fn leaves_are_well_formed(&self)
        requires
            self.wf(),
        ensures
            self.state().wf(),
            self.spec_phase() is Pick ==> self.state().leaves.len() < self.state().num_leaves,
    {
        self.grow.leaves_are_well_formed();
    }

    /// The settings of the growth are those of `other`.
    pub open spec fn keeps_settings(&self, other: ResidentMachine) -> bool {
        &&& self.shares_scans() == other.shares_scans()
        &&& self.is_single_owner() == other.is_single_owner()
        &&& self.table().len() == other.table().len()
    }

    /// The growth stands where the next leaf is picked, or is done where there is no room for
    /// another leaf.
    pub open spec fn picks_next(&self, action: ResidentAction) -> bool {
        if self.state().leaves.len() < self.state().num_leaves {
            &&& self.spec_phase() is Pick
            &&& action == (ResidentAction::Pick {
                prev_smaller: self.filled().0,
                prev_larger: self.filled().1,
                leaves: self.state().leaves.len() as usize,
            })
        } else {
            self.spec_phase() is Done && action is Finish
        }
    }

    /// Start a growth whose leaves stand at the root.
    pub fn start(grow: ResidentGrow, leaf_splits: DeviceLeafSplits, copack: bool, single_owner: bool) -> (r: (
        ResidentMachine,
        ResidentAction,
    ))
        requires
            grow.wf(),
            leaf_splits.wf(),
            grow@.leaves.len() == 1,
        ensures
            r.0.wf(),
            r.0.state() == grow@,
            r.0.spec_phase() is Root,
            r.0.filled() == (0i32, -1i32),
            r.0.table() == leaf_splits@,
            r.0.shares_scans() == copack,
            r.0.is_single_owner() == single_owner,
            r.1 matches ResidentAction::Root { steps } && steps@ == root_steps(
                grow_driver::scannable_sums(grow@.leaves[0].sum_h, grow@.leaves[0].row_count as i32),
                single_owner,
            ),
    {
        let mut steps: Vec<DeviceStep> = Vec::new();
        let leaf = grow.leaf(0);
        let scan: bool = grow_driver::leaf_is_scannable(leaf.sum_h, leaf.row_count as i32);
        if single_owner {
            steps.push(DeviceStep::BuildAndScan { leaf: 0, slot: 0, scan: true });
        } else {
            steps.push(DeviceStep::Build { leaf: 0, slot: 0, counted: true });
            if scan {
                steps.push(DeviceStep::Scan { leaf: 0, slot: 0 });
            }
        }
        assert(steps@ =~= root_steps(scan, single_owner));
        (
            ResidentMachine {
                grow,
                leaf_splits,
                phase: ResidentPhase::Root,
                prev_smaller: 0,
                prev_larger: -1,
                copack,
                single_owner,
            },
            ResidentAction::Root { steps },
        )
    }

    /// What the growth waits for.
    pub fn phase(&self) -> (p: ResidentPhase)
        ensures
            p == self.spec_phase(),
    {
        self.phase
    }

    /// The leaves of the growth.
    pub fn grow(&self) -> (g: &ResidentGrow)
        requires
            self.wf(),
        ensures
            g.wf(),
            g@ == self.state(),
    {
        &self.grow
    }

    /// Pick the next leaf where there is room for one.
    fn next(&mut self) -> (action: ResidentAction)
        requires
            old(self).wf(),
        ensures
            final(self).wf(),
            final(self).state() == old(self).state(),
            final(self).filled() == old(self).filled(),
            final(self).table() == old(self).table(),
            final(self).keeps_settings(*old(self)),
            final(self).picks_next(action),
    {
        if self.grow.has_room() {
            self.phase = ResidentPhase::Pick;
            ResidentAction::Pick {
                prev_smaller: self.prev_smaller,
                prev_larger: self.prev_larger,
                leaves: self.grow.leaf_count(),
            }
        } else {
            self.phase = ResidentPhase::Done;
            ResidentAction::Finish
        }
    }

    /// Take what the last piece of device work returned, and name the next one.
    pub fn advance(&mut self, features: &[GrowFeature], event: ResidentEvent) -> (r: Result<
        ResidentAction,
        ComputeError,
    >)
        requires
            old(self).wf(),
            resident_event_answers(old(self).spec_phase(), event),
            grow_driver::features_cover(features@, old(self).state().perm.len()),
            event matches ResidentEvent::RootScanned { best_fpos, .. } ==> best_fpos < features@.len(),
            event matches ResidentEvent::Picked { export, .. } ==> {
                &&& export.best_leaf < old(self).state().leaves.len()
                &&& forall|i: int|
                    0 <= i < features@.len() && features@[i].real_feature_index == export.real_feature ==> {
                        &&& (#[trigger] features@[i]).spec_partition_min_bin() <= u32::MAX
                        &&& data_partition::threshold_fault(features@[i].num_bin, export.best.threshold) is None
                            ==> features@[i].route(export.best).sums_fit(
                            old(self).state().leaves[export.best_leaf as int].row_count as nat,
                        )
                    }
            },
        ensures
            final(self).wf(),
            final(self).keeps_settings(*old(self)),
            r is Err ==> final(self).spec_phase() == old(self).spec_phase() && final(self).filled()
                == old(self).filled(),
            !(old(self).spec_phase() is Pick) ==> final(self).table() == old(self).table(),
            match old(self).spec_phase() {
                ResidentPhase::Root => event matches ResidentEvent::RootScanned { best, best_fpos } ==> {
                    &&& final(self).state() == old(self).state()
                    &&& final(self).filled() == old(self).filled()
                    &&& final(self).spec_phase() is RootSeed
                    &&& r matches Ok(action) && action == (ResidentAction::Seed {
                        leaf: 0,
                        record: spec_frontier_record(
                            0,
                            best,
                            split_order::held_feature(grow_feature::real_indices(features@), best_fpos as int),
                        ),
                    })
                },
                ResidentPhase::RootSeed => {
                    &&& final(self).state() == old(self).state()
                    &&& final(self).filled() == old(self).filled()
                    &&& r matches Ok(action) && final(self).picks_next(action)
                },
                ResidentPhase::Split => {
                    &&& final(self).state() == old(self).state()
                    &&& final(self).filled() == old(self).filled()
                    &&& r matches Ok(action) && final(self).picks_next(action)
                },
                ResidentPhase::Pick => event matches ResidentEvent::Picked { export, recorded_gain, arm } ==> {
                    let p = grow_resident::last_position(
                        grow_feature::real_indices(features@),
                        export.real_feature,
                        features@.len() as int,
                    );
                    let f = features@[p];
                    let l = export.best_leaf as int;
                    let s = old(self).state();
                    let rows = s.rows(l);
                    let marks = grow_resident::arm_marks(arm, f, export.best, rows);
                    let sp = stable::tally(marks, true) as int;
                    let refused = p < 0 || grow_resident::arm_fault(
                        arm,
                        f,
                        export.best,
                        rows,
                        export.best_leaf as usize,
                        old(self).table().len(),
                    ) is Some;
                    if export.best_leaf < 0 || (p >= 0 && !export.best.gain.spec_above(Real64::spec_zero())) {
                        &&& final(self).state() == s
                        &&& final(self).table() == old(self).table()
                        &&& final(self).spec_phase() is Done
                        &&& r matches Ok(action) && action is Finish
                    } else {
                        &&& error::fails_as(
                            r,
                            if p < 0 {
                                Some(Fault::Runtime(grow_resident::unknown_feature_text(export.real_feature)))
                            } else {
                                grow_resident::resident_split_fault(
                                    arm,
                                    f,
                                    export.best,
                                    rows,
                                    export.best_leaf as usize,
                                    old(self).table().len(),
                                )
                            },
                        )
                        &&& refused ==> final(self).state() == s && final(self).table() == old(self).table()
                        &&& !refused ==> {
                            &&& partition::span_partitioned(
                                s.perm,
                                final(self).state().perm,
                                s.leaves[l].row_begin as int,
                                rows,
                                marks,
                            )
                            &&& grow_resident::is_table_after(
                                arm,
                                old(self).table(),
                                final(self).table(),
                                l,
                                s.leaves[l].row_begin as int,
                                s.leaves[l].row_count as int,
                                sp,
                            )
                        }
                        &&& r is Err ==> final(self).state() == (ResidentState {
                            perm: final(self).state().perm,
                            ..s
                        })
                        &&& r matches Ok(action) ==> {
                            &&& final(self).spec_phase() is Split
                            &&& final(self).state() == s.after_split(l, final(self).state().perm, sp, export.best)
                            &&& action matches ResidentAction::Split { plan } && {
                                &&& plan.left == l
                                &&& plan.right == s.leaves.len()
                                &&& plan.smaller == (if sp < s.leaves[l].row_count - sp {
                                    plan.left
                                } else {
                                    plan.right
                                })
                                &&& plan.larger == (if sp < s.leaves[l].row_count - sp {
                                    plan.right
                                } else {
                                    plan.left
                                })
                                &&& plan.real_threshold == f.bin_upper_bound@[export.best.threshold as int]
                                &&& plan.missing_type_code == f.missing_type.spec_code()
                                &&& plan.scalars == grow_resident::resident_record(
                                    l,
                                    f,
                                    export.best,
                                    recorded_gain,
                                    sp,
                                    s.leaves[l].row_count - sp,
                                )
                                &&& plan.steps@ == grow_resident::child_steps(
                                    plan.smaller,
                                    plan.larger,
                                    s.leaves.len() as usize,
                                    s.leaves[l].slot,
                                    grow_resident::child_scannable(
                                        final(self).state().leaves[plan.smaller as int],
                                        s.min_data_in_leaf,
                                        s.max_depth,
                                    ),
                                    grow_resident::child_scannable(
                                        final(self).state().leaves[plan.larger as int],
                                        s.min_data_in_leaf,
                                        s.max_depth,
                                    ),
                                    old(self).shares_scans(),
                                    old(self).is_single_owner(),
                                )
                                &&& final(self).filled() == (plan.smaller as i32, plan.larger as i32)
                            }
                        }
                    }
                },
                ResidentPhase::Done => true,
            },
    {
        match event {
            ResidentEvent::RootScanned { best, best_fpos } => {
                let feature: i32 = grow_feature::real_feat_of(features, best_fpos);
                self.phase = ResidentPhase::RootSeed;
                Ok(ResidentAction::Seed { leaf: 0, record: frontier_record(0, &best, feature) })
            },
            ResidentEvent::Finished => Ok(self.next()),
            ResidentEvent::Picked { export, recorded_gain, arm } => {
                let picked: PickedLeaf = match self.grow.take_pick(features, &export)? {
                    None => {
                        self.phase = ResidentPhase::Done;
                        return Ok(ResidentAction::Finish);
                    },
                    Some(picked) => picked,
                };
                proof {
                    real_index_at(features@, export.real_feature, features@.len() as int);
                }
                let plan: ResidentPlan = self.grow.split_leaf(
                    features,
                    &picked,
                    recorded_gain,
                    arm,
                    &mut self.leaf_splits,
                    self.copack,
                    self.single_owner,
                )?;
                self.prev_smaller = plan.smaller as i32;
                self.prev_larger = plan.larger as i32;
                self.phase = ResidentPhase::Split;
                Ok(ResidentAction::Split { plan })
            },
        }
    }
}

/// The feature at a found position has the real index that was looked for.
proof fn real_index_at(features: Seq<GrowFeature>, feature: i32, n: int)
    requires
        0 <= n <= features.len(),
    ensures
        ({
            let p = grow_resident::last_position(grow_feature::real_indices(features), feature, n);
            p >= 0 ==> p < n && features[p].real_feature_index == feature
        }),
    decreases n,
{
    if n > 0 {
        real_index_at(features, feature, n - 1);
    }
}

} // verus!
