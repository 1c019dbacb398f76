//! The counts of device work and the time ledger of a growth. Both only move while profiling
//! is switched on.
use crate::kernels::grow_resident;
use crate::kernels::grow_resident::DeviceStep;
use crate::kernels::knobs;
use vstd::prelude::*;

verus! {

/// How often each kind of device work was issued.
#[derive(Clone, Copy, Debug, PartialEq, Eq, Structural)]
pub struct GrowCounters {
    /// Device dispatches.
    pub launches: u64,
    /// Blocking reads of a device result.
    pub syncs: u64,
    /// Builds of a root or of a directly built child with the parallel kernel.
    pub rootbuild_u64: u64,
    /// Builds with the single-owner kernel.
    pub f64_fused: u64,
}

impl GrowCounters {
    /// Counters at zero.
    pub open spec fn spec_zero() -> GrowCounters {
        GrowCounters { launches: 0, syncs: 0, rootbuild_u64: 0, f64_fused: 0 }
    }
}

impl Default for GrowCounters {
    fn default() -> (c: GrowCounters)
        ensures
            c == GrowCounters::spec_zero(),
    {
        GrowCounters { launches: 0, syncs: 0, rootbuild_u64: 0, f64_fused: 0 }
    }
}

/// One more, with wrap-around, where profiling is on.
pub open spec fn bumped(count: u64, profiling: bool) -> u64 {
    if !profiling {
        count
    } else if count == u64::MAX {
        0
    } else {
        (count + 1) as u64
    }
}

fn bump(count: u64, profiling: bool) -> (r: u64)
    ensures
        r == bumped(count, profiling),
{
    if profiling {
        count.wrapping_add(1)
    } else {
        count
    }
}

/// Whether profiling is on: only where the environment says "1".
pub fn launch_prof_enabled(switch: Option<&str>) -> (r: bool)
    ensures
        r == (switch matches Some(s) && s@ == "1"@),
{
    knobs::off_unless_one(switch)
}

/// Count one device dispatch.
pub fn bump_launch(c: &mut GrowCounters, profiling: bool)
    ensures
        *final(c) == (GrowCounters { launches: bumped(old(c).launches, profiling), ..*old(c) }),
{
    c.launches = bump(c.launches, profiling);
}

/// Count one blocking read.
pub fn bump_sync(c: &mut GrowCounters, profiling: bool)
    ensures
        *final(c) == (GrowCounters { syncs: bumped(old(c).syncs, profiling), ..*old(c) }),
{
    c.syncs = bump(c.syncs, profiling);
}

/// Count one parallel build of a root or a directly built child.
pub fn bump_rootbuild_u64(c: &mut GrowCounters, profiling: bool)
    ensures
        *final(c) == (GrowCounters { rootbuild_u64: bumped(old(c).rootbuild_u64, profiling), ..*old(c) }),
{
    c.rootbuild_u64 = bump(c.rootbuild_u64, profiling);
}

/// Count one build with the single-owner kernel.
pub fn bump_f64_fused(c: &mut GrowCounters, profiling: bool)
    ensures
        *final(c) == (GrowCounters { f64_fused: bumped(old(c).f64_fused, profiling), ..*old(c) }),
{
    c.f64_fused = bump(c.f64_fused, profiling);
}

/// Read the dispatch count and set it to zero.
pub fn on_device_launch_count_take(c: &mut GrowCounters) -> (n: u64)
    ensures
        n == old(c).launches,
        *final(c) == (GrowCounters { launches: 0, ..*old(c) }),
{
    let n: u64 = c.launches;
    c.launches = 0;
    n
}

/// Read the blocking-read count and set it to zero.
pub fn on_device_sync_count_take(c: &mut GrowCounters) -> (n: u64)
    ensures
        n == old(c).syncs,
        *final(c) == (GrowCounters { syncs: 0, ..*old(c) }),
{
    let n: u64 = c.syncs;
    c.syncs = 0;
    n
}

/// Read the count of parallel builds and set it to zero.
pub fn on_device_rootbuild_u64_count_take(c: &mut GrowCounters) -> (n: u64)
    ensures
        n == old(c).rootbuild_u64,
        *final(c) == (GrowCounters { rootbuild_u64: 0, ..*old(c) }),
{
    let n: u64 = c.rootbuild_u64;
    c.rootbuild_u64 = 0;
    n
}

/// Read the count of single-owner builds and set it to zero.
pub fn on_device_f64_fused_count_take(c: &mut GrowCounters) -> (n: u64)
    ensures
        n == old(c).f64_fused,
        *final(c) == (GrowCounters { f64_fused: 0, ..*old(c) }),
{
    let n: u64 = c.f64_fused;
    c.f64_fused = 0;
    n
}

/// The counters after one step of device work: every step is one dispatch and no blocking
/// read, and the build that has its own scan counts by its kernel.
pub open spec fn counted_step(c: GrowCounters, step: DeviceStep, profiling: bool) -> GrowCounters {
    let c = GrowCounters { launches: bumped(c.launches, profiling), ..c };
    match step {
        DeviceStep::Build { counted, .. } => if counted {
            GrowCounters { rootbuild_u64: bumped(c.rootbuild_u64, profiling), ..c }
        } else {
            c
        },
        DeviceStep::BuildAndScan { .. } => GrowCounters {
            f64_fused: bumped(c.f64_fused, profiling),
            ..c
        },
        _ => c,
    }
}

/// Count one step of device work.
pub fn count_step(c: &mut GrowCounters, step: &DeviceStep, profiling: bool)
    ensures
        *final(c) == counted_step(*old(c), *step, profiling),
{
    bump_launch(c, profiling);
    match step {
        DeviceStep::Build { counted, .. } => {
            if *counted {
                bump_rootbuild_u64(c, profiling);
            }
        },
        DeviceStep::BuildAndScan { .. } => {
            bump_f64_fused(c, profiling);
        },
        _ => {},
    }
}

/// The counters after a sequence of steps.
pub open spec fn counted_steps(c: GrowCounters, steps: Seq<DeviceStep>, profiling: bool) -> GrowCounters
    decreases steps.len(),
{
    if steps.len() == 0 {
        c
    } else {
        counted_step(counted_steps(c, steps.drop_last(), profiling), steps.last(), profiling)
    }
}

/// The device work after a split blocks nowhere. It uses the single-owner kernel only where
/// that was asked for, and a split whose children share their scan takes one dispatch less.
pub proof fn split_work_is_counted(
    c: GrowCounters,
    smaller: usize,
    larger: usize,
    smaller_slot: usize,
    larger_slot: usize,
    smaller_scan: bool,
    larger_scan: bool,
    copack: bool,
    single_owner: bool,
)
    requires
        c.launches + 4 <= u64::MAX,
        c.rootbuild_u64 < u64::MAX,
        c.f64_fused < u64::MAX,
    ensures
        ({
            let steps = grow_resident::child_steps(
                smaller,
                larger,
                smaller_slot,
                larger_slot,
                smaller_scan,
                larger_scan,
                copack,
                single_owner,
            );
            let shared = copack && !single_owner && smaller_scan && larger_scan;
            let after = counted_steps(c, steps, true);
            &&& after.syncs == c.syncs
            &&& after.launches == c.launches + (if shared || single_owner { 3int } else { 4int })
            &&& after.f64_fused == c.f64_fused + (if single_owner { 1int } else { 0int })
            &&& after.rootbuild_u64 == c.rootbuild_u64 + (if shared || single_owner { 0int } else { 1int })
        }),
{
    let steps = grow_resident::child_steps(
        smaller,
        larger,
        smaller_slot,
        larger_slot,
        smaller_scan,
        larger_scan,
        copack,
        single_owner,
    );
    reveal_with_fuel(counted_steps, 5);
    let s1 = steps.drop_last();
    let s2 = s1.drop_last();
    let s3 = s2.drop_last();
    assert(s1.last() == steps[steps.len() - 2]);
    assert(s2.last() == steps[steps.len() - 3]);
    if steps.len() == 4 {
        assert(s3.last() == steps[0]);
        assert(s3.drop_last().len() == 0);
    } else {
        assert(s3.len() == 0);
    }
}

/// Without profiling the counters do not move.
pub proof fn counters_are_inert_without_profiling(c: GrowCounters, steps: Seq<DeviceStep>)
    ensures
        counted_steps(c, steps, false) == c,
    decreases steps.len(),
{
    if steps.len() > 0 {
        counters_are_inert_without_profiling(c, steps.drop_last());
    }
}

/// One snapshot of the time that the phases of a growth took, in nanoseconds.
#[derive(Debug, Clone, Copy, PartialEq, Eq, Structural)]
pub struct GrowPhaseNs {
    pub wall: u64,
    pub setup: u64,
    pub upload: u64,
    pub rootfold: u64,
    pub build: u64,
    pub subtract: u64,
    pub scan: u64,
    pub pick: u64,
    pub partition: u64,
    pub treesplit: u64,
    pub reduce: u64,
    pub tail: u64,
}

impl GrowPhaseNs {
    /// A ledger with nothing booked.
    pub open spec fn spec_zero() -> GrowPhaseNs {
        GrowPhaseNs {
            wall: 0,
            setup: 0,
            upload: 0,
            rootfold: 0,
            build: 0,
            subtract: 0,
            scan: 0,
            pick: 0,
            partition: 0,
            treesplit: 0,
            reduce: 0,
            tail: 0,
        }
    }
}

impl Default for GrowPhaseNs {
    fn default() -> (p: GrowPhaseNs)
        ensures
            p == GrowPhaseNs::spec_zero(),
    {
        GrowPhaseNs {
            wall: 0,
            setup: 0,
            upload: 0,
            rootfold: 0,
            build: 0,
            subtract: 0,
            scan: 0,
            pick: 0,
            partition: 0,
            treesplit: 0,
            reduce: 0,
            tail: 0,
        }
    }
}

/// A phase of a growth.
#[derive(Debug, Clone, Copy, PartialEq, Eq, Structural)]
pub enum LedgerPhase {
    Wall,
    Setup,
    Upload,
    Rootfold,
    Build,
    Subtract,
    Scan,
    Pick,
    Partition,
    Treesplit,
    Reduce,
    Tail,
}

/// The sum of two times, with wrap-around.
pub open spec fn time_sum(a: u64, b: u64) -> u64 {
    if a + b > u64::MAX {
        (a + b - 0x1_0000_0000_0000_0000) as u64
    } else {
        (a + b) as u64
    }
}

/// A ledger after `ns` nanoseconds were booked to a phase.
pub open spec fn booked(p: GrowPhaseNs, phase: LedgerPhase, ns: u64) -> GrowPhaseNs {
    match phase {
        LedgerPhase::Wall => GrowPhaseNs { wall: time_sum(p.wall, ns), ..p },
        LedgerPhase::Setup => GrowPhaseNs { setup: time_sum(p.setup, ns), ..p },
        LedgerPhase::Upload => GrowPhaseNs { upload: time_sum(p.upload, ns), ..p },
        LedgerPhase::Rootfold => GrowPhaseNs { rootfold: time_sum(p.rootfold, ns), ..p },
        LedgerPhase::Build => GrowPhaseNs { build: time_sum(p.build, ns), ..p },
        LedgerPhase::Subtract => GrowPhaseNs { subtract: time_sum(p.subtract, ns), ..p },
        LedgerPhase::Scan => GrowPhaseNs { scan: time_sum(p.scan, ns), ..p },
        LedgerPhase::Pick => GrowPhaseNs { pick: time_sum(p.pick, ns), ..p },
        LedgerPhase::Partition => GrowPhaseNs { partition: time_sum(p.partition, ns), ..p },
        LedgerPhase::Treesplit => GrowPhaseNs { treesplit: time_sum(p.treesplit, ns), ..p },
        LedgerPhase::Reduce => GrowPhaseNs { reduce: time_sum(p.reduce, ns), ..p },
        LedgerPhase::Tail => GrowPhaseNs { tail: time_sum(p.tail, ns), ..p },
    }
}

/// Book `ns` nanoseconds to a phase, where profiling is on.
pub fn book_phase(p: &mut GrowPhaseNs, phase: LedgerPhase, ns: u64, profiling: bool)
    ensures
        *final(p) == (if profiling { booked(*old(p), phase, ns) } else { *old(p) }),
{
    if !profiling {
        return;
    }
    match phase {
        LedgerPhase::Wall => {
            p.wall = p.wall.wrapping_add(ns);
        },
        LedgerPhase::Setup => {
            p.setup = p.setup.wrapping_add(ns);
        },
        LedgerPhase::Upload => {
            p.upload = p.upload.wrapping_add(ns);
        },
        LedgerPhase::Rootfold => {
            p.rootfold = p.rootfold.wrapping_add(ns);
        },
        LedgerPhase::Build => {
            p.build = p.build.wrapping_add(ns);
        },
        LedgerPhase::Subtract => {
            p.subtract = p.subtract.wrapping_add(ns);
        },
        LedgerPhase::Scan => {
            p.scan = p.scan.wrapping_add(ns);
        },
        LedgerPhase::Pick => {
            p.pick = p.pick.wrapping_add(ns);
        },
        LedgerPhase::Partition => {
            p.partition = p.partition.wrapping_add(ns);
        },
        LedgerPhase::Treesplit => {
            p.treesplit = p.treesplit.wrapping_add(ns);
        },
        LedgerPhase::Reduce => {
            p.reduce = p.reduce.wrapping_add(ns);
        },
        LedgerPhase::Tail => {
            p.tail = p.tail.wrapping_add(ns);
        },
    }
}

/// Read the ledger and empty it.
pub fn on_device_grow_phase_take(p: &mut GrowPhaseNs) -> (taken: GrowPhaseNs)
    ensures
        taken == *old(p),
        *final(p) == GrowPhaseNs::spec_zero(),
{
    let taken = *p;
    *p = GrowPhaseNs::default();
    taken
}

} // verus!
