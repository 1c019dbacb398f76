//! The order of work of a growth: each step takes what the last piece of outside work
//! returned and names the next one.
//!
//! The root is built and scanned. Then, as long as a leaf is worth splitting: its rows are
//! divided, the tree is changed, the smaller child is built, the larger child is derived by
//! subtraction, and each child that may be split further is scanned.
use crate::error;
use crate::error::{ComputeError, Fault};
use crate::gain::SplitInfo;
use crate::kernels::grow_driver;
use crate::kernels::grow_driver::{ChildPlan, GrowDriver, GrowState, LeafState, SplitWork};
use crate::kernels::grow_feature;
use crate::kernels::grow_feature::GrowFeature;
use vstd::prelude::*;

verus! {

/// What the growth waits for.
#[derive(Debug, Clone, Copy, PartialEq, Eq, Structural)]
pub enum GrowPhase {
    /// The histogram of the root.
    RootBuild,
    /// The best split of the root.
    RootScan,
    /// The right child's leaf id from the tree.
    TreeSplit,
    /// The histogram of the smaller child.
    BuildSmaller { plan: ChildPlan },
    /// The histogram of the larger child.
    Subtract { plan: ChildPlan },
    /// The best split of the left child.
    ScanLeft { plan: ChildPlan },
    /// The best split of the right child.
    ScanRight { plan: ChildPlan },
    /// Nothing: the tree is grown.
    Done,
}

/// What a piece of outside work returned.
#[derive(Debug, Clone)]
pub enum GrowEvent {
    Built,
    Subtracted,
    /// The best split of the scanned leaf, the position of its feature or -1, and its winning
    /// bins.
    Scanned { best: SplitInfo, best_fpos: i32, best_cat: Vec<u32> },
    /// The leaf id that the tree gave the right child.
    TreeSplit { right_leaf_index: i32 },
}

/// The next piece of outside work.
#[derive(Debug, Clone)]
pub enum GrowAction {
    /// Build the histogram of a leaf from its rows.
    Build { leaf: usize },
    /// Find the best split of a leaf.
    Scan { leaf: usize },
    /// Split a leaf of the tree. The recorded gain is that of the split.
    SplitTree { work: SplitWork },
    /// Derive the histogram of `larger` as that of the split leaf less that of `smaller`.
    Subtract { parent: usize, smaller: usize, larger: usize },
    /// Read the tree back.
    Finish,
}

/// The event answers the phase.
pub open spec fn event_answers(phase: GrowPhase, event: GrowEvent) -> bool {
    match phase {
        GrowPhase::RootBuild => event is Built,
        GrowPhase::RootScan => event is Scanned,
        GrowPhase::TreeSplit => event is TreeSplit,
        GrowPhase::BuildSmaller { .. } => event is Built,
        GrowPhase::Subtract { .. } => event is Subtracted,
        GrowPhase::ScanLeft { .. } => event is Scanned,
        GrowPhase::ScanRight { .. } => event is Scanned,
        GrowPhase::Done => false,
    }
}

/// The leaf that a scan phase waits for.
pub open spec fn scanned_leaf(phase: GrowPhase) -> int {
    match phase {
        GrowPhase::ScanLeft { plan } => plan.left as int,
        GrowPhase::ScanRight { plan } => plan.right as int,
        _ => 0,
    }
}

/// The best split of every leaf can be carried out without leaving the range of the integers.
pub open spec fn splits_fit(s: GrowState, features: Seq<GrowFeature>) -> bool {
    forall|l: int|
        #![trigger s.leaves[l]]
        0 <= l < s.leaves.len() && s.leaves[l].best_fpos >= 0 ==> grow_driver::split_fits(
            features[s.leaves[l].best_fpos],
            s.leaves[l].best,
            s.leaves[l].best_cat,
            s.leaves[l].rows,
        )
}

/// The state after a leaf was scanned.
pub open spec fn after_scan(s: GrowState, l: int, best: SplitInfo, best_fpos: int, best_cat: Seq<u32>) -> GrowState {
    GrowState {
        leaves: s.leaves.update(l, LeafState { best, best_fpos, best_cat, ..s.leaves[l] }),
        ..s
    }
}

/// Whether leaf `l` is scanned once its histogram is there.
pub open spec fn is_scanned(s: GrowState, l: int) -> bool {
    grow_driver::may_split(
        s.leaves[l].rows.len() as int,
        s.leaves[l].depth,
        s.min_data_in_leaf,
        s.max_depth,
    )
}

/// The leaf that is split next, where one is.
pub open spec fn picked(s: GrowState, features: Seq<GrowFeature>) -> Option<int> {
    if s.leaves.len() >= s.num_leaves {
        None
    } else {
        grow_driver::next_leaf(s.leaves, grow_feature::real_indices(features))
    }
}

/// The fault of dividing the picked leaf's rows.
pub open spec fn pick_fault(s: GrowState, features: Seq<GrowFeature>) -> Option<Fault> {
    match picked(s, features) {
        None => None,
        Some(l) => grow_driver::split_fault(
            features[s.leaves[l].best_fpos],
            s.leaves[l].best,
            s.leaves[l].best_cat,
            s.leaves[l].rows,
        ),
    }
}

/// A growth in progress.
#[derive(Debug)]
pub struct GrowMachine {
    driver: GrowDriver,
    phase: GrowPhase,
    pending: Option<SplitWork>,
}

impl GrowMachine {
    /// The leaves of the growth.
    pub closed spec fn state(&self) -> GrowState {
        self.driver@
    }

    /// What the growth waits for.
    pub closed spec fn spec_phase(&self) -> GrowPhase {
        self.phase
    }

    /// The division of rows that the tree is about to take over.
    pub closed spec fn spec_pending(&self) -> Option<SplitWork> {
        self.pending
    }

    /// The leaves are well formed, and the phase speaks of leaves that exist.
    pub open spec fn wf(&self) -> bool {
        &&& self.state().wf()
        &&& match self.spec_phase() {
            GrowPhase::BuildSmaller { plan } => plan_fits(plan, self.state()),
            GrowPhase::Subtract { plan } => plan_fits(plan, self.state()),
            GrowPhase::ScanLeft { plan } => plan_fits(plan, self.state()),
            GrowPhase::ScanRight { plan } => plan_fits(plan, self.state()),
            GrowPhase::TreeSplit => {
                &&& self.spec_pending() is Some
                &&& self.state().leaves.len() < self.state().num_leaves
                &&& self.spec_pending()->Some_0.leaf < self.state().leaves.len()
                &&& grow_driver::divides_rows(
                    self.spec_pending()->Some_0,
                    self.state().leaves[self.spec_pending()->Some_0.leaf as int].rows,
                )
            },
            _ => true,
        }
    }

    /// The growth stands where the picked leaf of `s` is about to be split, or is done where no
    /// leaf is picked.
    pub open spec fn picked_from(&self, s: GrowState, features: Seq<GrowFeature>, r: Result<GrowAction, ComputeError>) -> bool {
        &&& self.state() == s
        &&& error::fails_as(r, pick_fault(s, features))
        &&& r matches Ok(action) ==> match picked(s, features) {
            None => action is Finish && self.spec_phase() == GrowPhase::Done,
            Some(l) => {
                &&& self.spec_phase() == GrowPhase::TreeSplit
                &&& self.spec_pending() is Some
                &&& action matches GrowAction::SplitTree { work } && grow_driver::is_split_work(
                    work,
                    l,
                    features[s.leaves[l].best_fpos],
                    s.leaves[l].best,
                    s.leaves[l].best_cat,
                    s.leaves[l].rows,
                    s.leaves[l].best.gain,
                )
                && self.spec_pending()->Some_0.leaf == l
                && self.spec_pending()->Some_0.left_rows@ == work.left_rows@
                && self.spec_pending()->Some_0.right_rows@ == work.right_rows@
            },
        }
    }

    /// The growth stands where the children of `plan` are about to be scanned in state `s`: the
    /// left child, or the right one where `right_only`.
    pub open spec fn children_from(
        &self,
        s: GrowState,
        plan: ChildPlan,
        right_only: bool,
        features: Seq<GrowFeature>,
        r: Result<GrowAction, ComputeError>,
    ) -> bool {
        if !right_only && is_scanned(s, plan.left as int) {
            &&& self.state() == s
            &&& self.spec_phase() == (GrowPhase::ScanLeft { plan })
            &&& r matches Ok(action) && action matches GrowAction::Scan { leaf } && leaf == plan.left
        } else if is_scanned(s, plan.right as int) {
            &&& self.state() == s
            &&& self.spec_phase() == (GrowPhase::ScanRight { plan })
            &&& r matches Ok(action) && action matches GrowAction::Scan { leaf } && leaf == plan.right
        } else {
            self.picked_from(s, features, r)
        }
    }

    /// Start a growth whose driver stands at the root. The root's histogram is built first.
    pub fn start(driver: GrowDriver) -> (r: (GrowMachine, GrowAction))
        requires
            driver@.wf(),
        ensures
            r.0.wf(),
            r.0.state() == driver@,
            r.0.spec_phase() == GrowPhase::RootBuild,
            r.1 matches GrowAction::Build { leaf } && leaf == 0,
    {
        (
            GrowMachine { driver, phase: GrowPhase::RootBuild, pending: None },
            GrowAction::Build { leaf: 0 },
        )
    }

    /// What the growth waits for.
    pub fn phase(&self) -> (p: GrowPhase)
        ensures
            p == self.spec_phase(),
    {
        self.phase
    }

    /// The leaves of the growth.
    pub fn driver(&self) -> (d: &GrowDriver)
        ensures
            d@ == self.state(),
    {
        &self.driver
    }

    /// Pick the next leaf and divide its rows.
    fn pick(&mut self, features: &[GrowFeature]) -> (r: Result<GrowAction, ComputeError>)
        requires
            old(self).state().wf(),
            features@.len() == old(self).state().num_features,
            grow_driver::features_cover(features@, old(self).state().num_data),
            splits_fit(old(self).state(), features@),
        ensures
            final(self).picked_from(old(self).state(), features@, r),
            r is Ok ==> final(self).wf(),
    {
        match self.driver.next_split(features) {
            None => {
                self.phase = GrowPhase::Done;
                Ok(GrowAction::Finish)
            },
            Some(l) => {
                assert(self.state().leaves[l as int].best_fpos >= 0);
                let gain = self.driver.leaf(l).best.gain;
                let work = self.driver.split_leaf(features, l, gain)?;
                let pending = SplitWork {
                    leaf: work.leaf,
                    left_rows: grow_driver::copy_of(work.left_rows.as_slice()),
                    right_rows: grow_driver::copy_of(work.right_rows.as_slice()),
                    real_feature_index: work.real_feature_index,
                    missing_type_code: work.missing_type_code,
                    real_threshold: work.real_threshold,
                    real_bitset: Vec::new(),
                    inner_bitset: Vec::new(),
                    scalars: work.scalars,
                };
                self.pending = Some(pending);
                self.phase = GrowPhase::TreeSplit;
                Ok(GrowAction::SplitTree { work })
            },
        }
    }

    /// Scan the children that may be split further, then pick the next leaf.
    fn scan_children(
        &mut self,
        plan: ChildPlan,
        right_only: bool,
        features: &[GrowFeature],
    ) -> (r: Result<GrowAction, ComputeError>)
        requires
            old(self).state().wf(),
            plan_fits(plan, old(self).state()),
            features@.len() == old(self).state().num_features,
            grow_driver::features_cover(features@, old(self).state().num_data),
            splits_fit(old(self).state(), features@),
        ensures
            final(self).children_from(old(self).state(), plan, right_only, features@, r),
            r is Ok ==> final(self).wf(),
    {
        if !right_only && self.driver.may_scan(plan.left) {
            self.phase = GrowPhase::ScanLeft { plan };
            return Ok(GrowAction::Scan { leaf: plan.left });
        }
        if self.driver.may_scan(plan.right) {
            self.phase = GrowPhase::ScanRight { plan };
            return Ok(GrowAction::Scan { leaf: plan.right });
        }
        self.pick(features)
    }

    /// Take what the last piece of outside work returned, and name the next one.
    pub fn advance(&mut self, features: &[GrowFeature], event: GrowEvent) -> (r: Result<
        GrowAction,
        ComputeError,
    >)
        requires
            old(self).wf(),
            event_answers(old(self).spec_phase(), event),
            features@.len() == old(self).state().num_features,
            grow_driver::features_cover(features@, old(self).state().num_data),
            splits_fit(old(self).state(), features@),
            event matches GrowEvent::Scanned { best, best_fpos, best_cat } ==> {
                &&& -1 <= best_fpos < old(self).state().num_features
                &&& best_cat@.len() <= i32::MAX
                &&& best_fpos >= 0 ==> grow_driver::split_fits(
                    features@[best_fpos as int],
                    best,
                    best_cat@,
                    old(self).state().leaves[scanned_leaf(old(self).spec_phase())].rows,
                )
            },
        ensures
            r is Ok ==> final(self).wf(),
            final(self).state().wf(),
            r is Ok ==> splits_fit(final(self).state(), features@),
            match old(self).spec_phase() {
                GrowPhase::RootBuild => {
                    &&& final(self).state() == old(self).state()
                    &&& final(self).spec_phase() == GrowPhase::RootScan
                    &&& r matches Ok(action) && action matches GrowAction::Scan { leaf } && leaf == 0
                },
                GrowPhase::RootScan => event matches GrowEvent::Scanned { best, best_fpos, best_cat }
                    ==> final(self).picked_from(
                    after_scan(old(self).state(), 0, best, best_fpos as int, best_cat@),
                    features@,
                    r,
                ),
                GrowPhase::TreeSplit => event matches GrowEvent::TreeSplit { right_leaf_index } ==> {
                    let work = old(self).spec_pending()->Some_0;
                    let next = old(self).state().after_split(
                        work.leaf as int,
                        work.left_rows@,
                        work.right_rows@,
                    );
                    &&& r is Err <==> right_leaf_index != old(self).state().leaves.len()
                    &&& r is Err ==> final(self).state() == old(self).state()
                    &&& r matches Err(e) ==> e@ == Fault::Runtime(
                        grow_driver::desync_text(right_leaf_index as int, old(self).state().leaves.len()),
                    )
                    &&& r matches Ok(action) ==> {
                        &&& final(self).state() == next
                        &&& action matches GrowAction::Build { leaf }
                            && final(self).spec_phase() matches GrowPhase::BuildSmaller { plan }
                            && leaf == plan.smaller && plan.left == work.leaf
                            && plan.right == old(self).state().leaves.len()
                            && plan.smaller == (if work.left_rows@.len() < work.right_rows@.len() {
                            plan.left
                        } else {
                            plan.right
                        }) && plan.larger == (if work.left_rows@.len() < work.right_rows@.len() {
                            plan.right
                        } else {
                            plan.left
                        })
                    }
                },
                GrowPhase::BuildSmaller { plan } => {
                    &&& final(self).state() == old(self).state()
                    &&& final(self).spec_phase() == (GrowPhase::Subtract { plan })
                    &&& r matches Ok(action) && action matches GrowAction::Subtract {
                        parent,
                        smaller,
                        larger,
                    } && parent == plan.left && smaller == plan.smaller && larger == plan.larger
                },
                GrowPhase::Subtract { plan } => final(self).children_from(
                    old(self).state(),
                    plan,
                    false,
                    features@,
                    r,
                ),
                GrowPhase::ScanLeft { plan } => event matches GrowEvent::Scanned {
                    best,
                    best_fpos,
                    best_cat,
                } ==> final(self).children_from(
                    after_scan(old(self).state(), plan.left as int, best, best_fpos as int, best_cat@),
                    plan,
                    true,
                    features@,
                    r,
                ),
                GrowPhase::ScanRight { plan } => event matches GrowEvent::Scanned {
                    best,
                    best_fpos,
                    best_cat,
                } ==> final(self).picked_from(
                    after_scan(old(self).state(), plan.right as int, best, best_fpos as int, best_cat@),
                    features@,
                    r,
                ),
                GrowPhase::Done => true,
            },
    {
        match (self.phase, event) {
            (GrowPhase::RootBuild, GrowEvent::Built) => {
                self.phase = GrowPhase::RootScan;
                Ok(GrowAction::Scan { leaf: 0 })
            },
            (GrowPhase::RootScan, GrowEvent::Scanned { best, best_fpos, best_cat }) => {
                self.driver.record_scan(0, best, best_fpos, best_cat);
                self.pick(features)
            },
            (GrowPhase::TreeSplit, GrowEvent::TreeSplit { right_leaf_index }) => {
                let pending = self.pending.take();
                match pending {
                    Some(work) => {
                        let ghost before = self.state();
                        let plan = self.driver.commit_split(work, right_leaf_index)?;
                        self.phase = GrowPhase::BuildSmaller { plan };
                        assert(splits_fit(self.state(), features@)) by {
                            assert forall|l: int|
                                #![trigger self.state().leaves[l]]
                                0 <= l < self.state().leaves.len() && self.state().leaves[l].best_fpos >= 0 implies grow_driver::split_fits(
                                    features@[self.state().leaves[l].best_fpos],
                                    self.state().leaves[l].best,
                                    self.state().leaves[l].best_cat,
                                    self.state().leaves[l].rows,
                                ) by {
                                assert(self.state().leaves[l] == before.leaves[l]);
                            }
                        }
                        Ok(GrowAction::Build { leaf: plan.smaller })
                    },
                    None => Ok(GrowAction::Finish),
                }
            },
            (GrowPhase::BuildSmaller { plan }, GrowEvent::Built) => {
                self.phase = GrowPhase::Subtract { plan };
                Ok(
                    GrowAction::Subtract {
                        parent: plan.left,
                        smaller: plan.smaller,
                        larger: plan.larger,
                    },
                )
            },
            (GrowPhase::Subtract { plan }, GrowEvent::Subtracted) => self.scan_children(
                plan,
                false,
                features,
            ),
            (GrowPhase::ScanLeft { plan }, GrowEvent::Scanned { best, best_fpos, best_cat }) => {
                self.driver.record_scan(plan.left, best, best_fpos, best_cat);
                self.scan_children(plan, true, features)
            },
            (GrowPhase::ScanRight { plan }, GrowEvent::Scanned { best, best_fpos, best_cat }) => {
                self.driver.record_scan(plan.right, best, best_fpos, best_cat);
                self.pick(features)
            },
            _ => Ok(GrowAction::Finish),
        }
    }
}

/// The children of a plan are two leaves of the growth, and the smaller and the larger child
/// are those two.
pub open spec fn plan_fits(plan: ChildPlan, s: GrowState) -> bool {
    &&& plan.left < plan.right < s.leaves.len()
    &&& (plan.smaller == plan.left && plan.larger == plan.right) || (plan.smaller == plan.right
        && plan.larger == plan.left)
}

} // verus!
