//! The one-pass build and scan of a leaf: the checks before it, the layout it runs on, the
//! histogram it leaves, and the candidates that come back.
use crate::bin_column::BinColumn;
use crate::error;
use crate::error::{ComputeError, Fault};
use crate::fold;
use crate::gain::{GainConfig, SplitInfo};
use crate::kernels::fixed_build;
use crate::kernels::grow_feature::BatchedSplitFeature;
use crate::kernels::hist_region;
use crate::kernels::histogram;
use crate::kernels::leaf_histogram;
use crate::kernels::split_order;
use crate::number::Real64;
use crate::stable;
use vstd::prelude::*;

verus! {

/// The per-feature arrays that the pass reads.
#[derive(Clone, Debug, PartialEq, Eq)]
pub struct ScanPlan {
    pub slot_off: Vec<u32>,
    pub num_bin: Vec<i32>,
    pub offset: Vec<i32>,
    pub most_freq_bin: Vec<i32>,
    pub default_bin: Vec<i32>,
    pub skip_default_bin: Vec<u32>,
    /// How many thresholds are tried from the right.
    pub rev_count: Vec<i32>,
    /// How many thresholds are tried from the left.
    pub fwd_count: Vec<i32>,
    pub scan_active: Vec<u32>,
}

/// How many thresholds of a feature are tried from the right.
pub open spec fn reverse_steps(f: BatchedSplitFeature) -> int {
    if f.num_bin >= 1 {
        f.num_bin - 1
    } else {
        0
    }
}

/// How many thresholds of a feature are tried from the left: none unless the feature is scanned
/// both ways.
pub open spec fn forward_steps(f: BatchedSplitFeature) -> int {
    if f.run_forward && f.num_bin - 1 - f.offset > 0 {
        f.num_bin - 1 - f.offset
    } else {
        0
    }
}

/// The arrays hold the first `n` features.
pub open spec fn is_scan_plan(plan: ScanPlan, feats: Seq<BatchedSplitFeature>, active: Seq<bool>, n: int) -> bool {
    &&& plan.slot_off@.len() == n
    &&& plan.num_bin@.len() == n
    &&& plan.offset@.len() == n
    &&& plan.most_freq_bin@.len() == n
    &&& plan.default_bin@.len() == n
    &&& plan.skip_default_bin@.len() == n
    &&& plan.rev_count@.len() == n
    &&& plan.fwd_count@.len() == n
    &&& plan.scan_active@.len() == n
    &&& forall|i: int| 0 <= i < n ==> #[trigger] is_scan_entry(plan, i, feats[i], active[i])
}

/// Entry `i` of the arrays is feature `f`, scanned or not.
pub open spec fn is_scan_entry(plan: ScanPlan, i: int, f: BatchedSplitFeature, active: bool) -> bool {
    &&& plan.slot_off@[i] == f.slot_off as u32
    &&& plan.num_bin@[i] == f.num_bin
    &&& plan.offset@[i] == f.offset
    &&& plan.most_freq_bin@[i] == f.most_freq_bin as i32
    &&& plan.default_bin@[i] == f.default_bin as i32
    &&& plan.skip_default_bin@[i] == (if f.skip_default_bin {
        1u32
    } else {
        0u32
    })
    &&& plan.rev_count@[i] == reverse_steps(f)
    &&& plan.fwd_count@[i] == forward_steps(f)
    &&& plan.scan_active@[i] == (if active {
        1u32
    } else {
        0u32
    })
}

/// The text of the fault of a configuration that the pass does not know.
pub open spec fn scope_text() -> Seq<char> {
    "build_fix_scan_resident: max_delta_step / path_smooth are Phase-7+ scope (only the default 0.0 path is transcribed)"@
}

/// The fault of the first feature, from `from` on, that cannot be scanned or whose region does not
/// fit.
pub open spec fn first_scan_fault(
    feats: Seq<BatchedSplitFeature>,
    active: Seq<bool>,
    slot_len: usize,
    from: int,
) -> Option<Fault>
    decreases feats.len() - from,
{
    if from >= feats.len() {
        None
    } else if feats[from].na_as_missing && active[from] {
        Some(Fault::Runtime("build_fix_scan_resident: na_as_missing not yet implemented"@))
    } else {
        match hist_region::region_fault(
            "build_fix_scan_resident"@,
            feats[from].slot_off,
            feats[from].num_bin,
            slot_len as nat,
        ) {
            Some(fault) => Some(fault),
            None => first_scan_fault(feats, active, slot_len, from + 1),
        }
    }
}

/// The fault of a pass over a leaf that has rows and features.
pub open spec fn scan_fault(
    feats: Seq<BatchedSplitFeature>,
    active: Seq<bool>,
    slot_len: usize,
    cfg: GainConfig,
    sum_hessian: Real64,
) -> Option<Fault> {
    if active.len() != feats.len() {
        Some(Fault::LengthMismatch { expected: feats.len(), actual: active.len() })
    } else if !cfg.max_delta_step.spec_same(Real64::spec_zero()) || !cfg.path_smooth.spec_same(
        Real64::spec_zero(),
    ) {
        Some(Fault::Runtime(scope_text()))
    } else if !sum_hessian.spec_above(Real64::spec_zero()) {
        Some(
            Fault::Runtime(
                "build_fix_scan_resident: sum_hessian must be > 0 (cnt_factor divides by it)"@,
            ),
        )
    } else {
        first_scan_fault(feats, active, slot_len, 0)
    }
}

/// Numbers of bins and offsets whose threshold counts are 32-bit numbers.
pub open spec fn steps_fit(feats: Seq<BatchedSplitFeature>) -> bool {
    forall|i: int|
        0 <= i < feats.len() ==> {
            &&& (#[trigger] feats[i]).num_bin <= i32::MAX
            &&& feats[i].run_forward ==> feats[i].num_bin - 1 - feats[i].offset <= i32::MAX
        }
}

/// Every feature's region lies within `len` cells.
pub open spec fn scan_regions_fit(feats: Seq<BatchedSplitFeature>, len: nat) -> bool {
    forall|i: int| 0 <= i < feats.len() ==> (#[trigger] feats[i]).slot_off + 2 * feats[i].num_bin <= len
}

/// No fault means that every feature's region fits.
pub proof fn faultless_regions_fit(feats: Seq<BatchedSplitFeature>, active: Seq<bool>, slot_len: usize, from: int)
    requires
        0 <= from,
        first_scan_fault(feats, active, slot_len, from) is None,
    ensures
        forall|i: int|
            from <= i < feats.len() ==> (#[trigger] feats[i]).slot_off + 2 * feats[i].num_bin <= slot_len
                && feats[i].num_bin > 0,
    decreases feats.len() - from,
{
    if from < feats.len() {
        faultless_regions_fit(feats, active, slot_len, from + 1);
    }
}

/// Check a pass over a leaf that has rows and features.
pub fn check_scan(
    feats: &[BatchedSplitFeature],
    scan_active: &[bool],
    slot_len: usize,
    cfg: &GainConfig,
    sum_hessian: Real64,
) -> (r: Result<(), ComputeError>)
    ensures
        error::fails_as(r, scan_fault(feats@, scan_active@, slot_len, *cfg, sum_hessian)),
{
    if scan_active.len() != feats.len() {
        return Err(ComputeError::LengthMismatch { expected: feats.len(), actual: scan_active.len() });
    }
    if !cfg.max_delta_step.same(Real64::zero()) || !cfg.path_smooth.same(Real64::zero()) {
        return Err(
            error::runtime_error(
                "build_fix_scan_resident: max_delta_step / path_smooth are Phase-7+ scope (only the default 0.0 path is transcribed)",
            ),
        );
    }
    if !sum_hessian.above(Real64::zero()) {
        return Err(
            error::runtime_error(
                "build_fix_scan_resident: sum_hessian must be > 0 (cnt_factor divides by it)",
            ),
        );
    }
    let mut i: usize = 0;
    while i < feats.len()
        invariant
            i <= feats@.len(),
            scan_active@.len() == feats@.len(),
            cfg.max_delta_step.spec_same(Real64::spec_zero()),
            cfg.path_smooth.spec_same(Real64::spec_zero()),
            sum_hessian.spec_above(Real64::spec_zero()),
            first_scan_fault(feats@, scan_active@, slot_len, 0) == first_scan_fault(
                feats@,
                scan_active@,
                slot_len,
                i as int,
            ),
        decreases feats@.len() - i,
    {
        let f: &BatchedSplitFeature = &feats[i];
        if f.na_as_missing && scan_active[i] {
            return Err(error::runtime_error("build_fix_scan_resident: na_as_missing not yet implemented"));
        }
        hist_region::check_region("build_fix_scan_resident", f.slot_off, f.num_bin, slot_len)?;
        i += 1;
    }
    Ok(())
}

/// Check a pass over a leaf and lay out its arrays.
pub fn plan_scan(
    feats: &[BatchedSplitFeature],
    scan_active: &[bool],
    slot_len: usize,
    cfg: &GainConfig,
    sum_hessian: Real64,
) -> (r: Result<ScanPlan, ComputeError>)
    requires
        scan_fault(feats@, scan_active@, slot_len, *cfg, sum_hessian) is None ==> steps_fit(feats@),
    ensures
        error::fails_as(r, scan_fault(feats@, scan_active@, slot_len, *cfg, sum_hessian)),
        r matches Ok(plan) ==> is_scan_plan(plan, feats@, scan_active@, feats@.len() as int),
        r is Ok ==> scan_regions_fit(feats@, slot_len as nat),
{
    check_scan(feats, scan_active, slot_len, cfg, sum_hessian)?;
    proof {
        faultless_regions_fit(feats@, scan_active@, slot_len, 0);
    }
    let mut plan = ScanPlan {
        slot_off: Vec::new(),
        num_bin: Vec::new(),
        offset: Vec::new(),
        most_freq_bin: Vec::new(),
        default_bin: Vec::new(),
        skip_default_bin: Vec::new(),
        rev_count: Vec::new(),
        fwd_count: Vec::new(),
        scan_active: Vec::new(),
    };
    let mut i: usize = 0;
    while i < feats.len()
        invariant
            i <= feats@.len(),
            scan_active@.len() == feats@.len(),
            steps_fit(feats@),
            forall|k: int| 0 <= k < feats@.len() ==> (#[trigger] feats@[k]).num_bin > 0,
            is_scan_plan(plan, feats@, scan_active@, i as int),
        decreases feats@.len() - i,
    {
        let f: &BatchedSplitFeature = &feats[i];
        assert(0 < feats@[i as int].num_bin <= i32::MAX);
        let num_bin: i32 = f.num_bin as i32;
        let fwd: i32 = if f.run_forward && num_bin - 1 > f.offset {
            num_bin - 1 - f.offset
        } else {
            0
        };
        let ghost held = plan;
        plan.slot_off.push(f.slot_off as u32);
        plan.num_bin.push(num_bin);
        plan.offset.push(f.offset);
        plan.most_freq_bin.push(f.most_freq_bin as i32);
        plan.default_bin.push(f.default_bin as i32);
        plan.skip_default_bin.push(if f.skip_default_bin {
            1
        } else {
            0
        });
        plan.rev_count.push(num_bin - 1);
        plan.fwd_count.push(fwd);
        plan.scan_active.push(if scan_active[i] {
            1
        } else {
            0
        });
        proof {
            assert forall|k: int| 0 <= k < i + 1 implies #[trigger] is_scan_entry(
                plan,
                k,
                feats@[k],
                scan_active@[k],
            ) by {
                if k < i {
                    assert(is_scan_entry(held, k, feats@[k], scan_active@[k]));
                }
            }
        }
        i += 1;
    }
    Ok(plan)
}

/// A feature's region after the pass: folded over the leaf's rows in their order, then compacted.
/// The most frequent bin is left as it was built.
pub open spec fn is_scan_region<C, V, A: Fn(C, V) -> C>(
    add_to: A,
    zero: C,
    bins: Seq<u32>,
    num_data: int,
    rows: Seq<u32>,
    grad: Seq<V>,
    hess: Seq<V>,
    f: BatchedSplitFeature,
    fpos: int,
    region: Seq<C>,
) -> bool {
    exists|raw: Seq<C>| #[trigger]
        histogram::is_histogram(
            add_to,
            histogram::filled(2 * f.num_bin, zero),
            fixed_build::column_bins(bins, num_data, fpos, rows),
            grad,
            hess,
            f.num_bin,
            raw,
        ) && region == hist_region::compacted(raw, f.offset as int, zero)
}

/// One region per feature.
pub open spec fn are_scan_regions<C, V, A: Fn(C, V) -> C>(
    add_to: A,
    zero: C,
    bins: Seq<u32>,
    num_data: int,
    rows: Seq<u32>,
    grad: Seq<V>,
    hess: Seq<V>,
    feats: Seq<BatchedSplitFeature>,
    regions: Seq<Seq<C>>,
) -> bool {
    &&& regions.len() <= feats.len()
    &&& forall|i: int|
        0 <= i < regions.len() ==> #[trigger] regions[i].len() == 2 * feats[i].num_bin && is_scan_region(
            add_to,
            zero,
            bins,
            num_data,
            rows,
            grad,
            hess,
            feats[i],
            i,
            regions[i],
        )
}

/// Where each feature's region starts.
pub open spec fn scan_starts(feats: Seq<BatchedSplitFeature>) -> Seq<int> {
    Seq::new(feats.len(), |i: int| feats[i].slot_off as int)
}

/// The region of each feature, written at its place into zeroed cells.
pub open spec fn is_scan_histogram<C, V, A: Fn(C, V) -> C>(
    add_to: A,
    zero: C,
    bins: Seq<u32>,
    num_data: int,
    rows: Seq<u32>,
    grad: Seq<V>,
    hess: Seq<V>,
    feats: Seq<BatchedSplitFeature>,
    slot_len: usize,
    out: Seq<C>,
) -> bool {
    exists|regions: Seq<Seq<C>>|
        {
            &&& #[trigger] are_scan_regions(add_to, zero, bins, num_data, rows, grad, hess, feats, regions)
            &&& regions.len() == feats.len()
            &&& out == hist_region::overlaid(
                histogram::filled(slot_len as int, zero),
                scan_starts(feats),
                regions,
                regions.len() as int,
            )
        }
}

/// The columns hold the features' bins, and the rows lie within them.
pub open spec fn scan_columns_fit(
    bins: Seq<u32>,
    num_data: int,
    num_features: int,
    rows: Seq<u32>,
    feats: Seq<BatchedSplitFeature>,
) -> bool {
    &&& feats.len() <= num_features
    &&& bins.len() == num_features * num_data
    &&& forall|k: int| 0 <= k < rows.len() ==> #[trigger] rows[k] < num_data
    &&& forall|f: int, k: int|
        0 <= f < feats.len() && 0 <= k < rows.len() ==> #[trigger] fixed_build::column_bins(
            bins,
            num_data,
            f,
            rows,
        )[k] < feats[f].num_bin
}

/// What a pass that is not refused reads: the columns, and a gradient and a hessian of every row.
pub open spec fn scan_inputs_fit(
    bins: Seq<u32>,
    num_data: int,
    num_features: int,
    rows: Seq<u32>,
    feats: Seq<BatchedSplitFeature>,
    gradients: nat,
    hessians: nat,
) -> bool {
    &&& steps_fit(feats)
    &&& scan_columns_fit(bins, num_data, num_features, rows, feats)
    &&& forall|k: int|
        0 <= k < rows.len() ==> #[trigger] rows[k] < gradients && rows[k] < hessians
}

/// Build every feature's region over the leaf's rows and compact it.
pub fn build_fix_scan_fused_kernel<C: Copy, V: Copy, A: Fn(C, V) -> C>(
    add_to: &A,
    zero: C,
    bins: &BinColumn,
    num_data: usize,
    num_features: usize,
    leaf_rows: &[u32],
    ord_g: &[V],
    ord_h: &[V],
    feats: &[BatchedSplitFeature],
    slot_len: usize,
) -> (hist: Vec<C>)
    requires
        fold::is_total(*add_to),
        ord_g@.len() == leaf_rows@.len(),
        ord_h@.len() == leaf_rows@.len(),
        scan_regions_fit(feats@, slot_len as nat),
        scan_columns_fit(bins@, num_data as int, num_features as int, leaf_rows@, feats@),
    ensures
        is_scan_histogram(
            *add_to,
            zero,
            bins@,
            num_data as int,
            leaf_rows@,
            ord_g@,
            ord_h@,
            feats@,
            slot_len,
            hist@,
        ),
{
    let mut hist: Vec<C> = histogram::zeroed(slot_len, zero);
    let ghost start = hist@;
    let ghost starts = scan_starts(feats@);
    let ghost mut regions: Seq<Seq<C>> = Seq::empty();
    let mut i: usize = 0;
    while i < feats.len()
        invariant
            i <= feats@.len(),
            fold::is_total(*add_to),
            ord_g@.len() == leaf_rows@.len(),
            ord_h@.len() == leaf_rows@.len(),
            scan_regions_fit(feats@, slot_len as nat),
            scan_columns_fit(bins@, num_data as int, num_features as int, leaf_rows@, feats@),
            start == histogram::filled(slot_len as int, zero),
            starts == scan_starts(feats@),
            regions.len() == i,
            are_scan_regions(
                *add_to,
                zero,
                bins@,
                num_data as int,
                leaf_rows@,
                ord_g@,
                ord_h@,
                feats@,
                regions,
            ),
            hist@.len() == slot_len,
            hist@ == hist_region::overlaid(start, starts, regions, i as int),
        decreases feats@.len() - i,
    {
        let f: &BatchedSplitFeature = &feats[i];
        assert(feats@[i as int].slot_off + 2 * feats@[i as int].num_bin <= slot_len);
        let binned: Vec<u32> = fixed_build::feature_bins(bins, num_data, i, num_features, leaf_rows);
        let mut region: Vec<C> = histogram::zeroed(2 * f.num_bin as usize, zero);
        proof {
            assert forall|k: int| 0 <= k < binned@.len() implies #[trigger] binned@[k] < f.num_bin by {
                assert(fixed_build::column_bins(bins@, num_data as int, i as int, leaf_rows@)[k]
                    < feats@[i as int].num_bin);
            }
        }
        histogram::construct_hist_kernel(
            add_to,
            binned.as_slice(),
            ord_g,
            ord_h,
            f.num_bin,
            region.as_mut_slice(),
        );
        let ghost raw = region@;
        hist_region::compact_histogram(region.as_mut_slice(), f.offset, zero);
        hist_region::paste(&mut hist, f.slot_off, region.as_slice());
        proof {
            assert(histogram::is_histogram(
                *add_to,
                histogram::filled(2 * f.num_bin, zero),
                fixed_build::column_bins(bins@, num_data as int, i as int, leaf_rows@),
                ord_g@,
                ord_h@,
                f.num_bin,
                raw,
            ));
            assert(is_scan_region(
                *add_to,
                zero,
                bins@,
                num_data as int,
                leaf_rows@,
                ord_g@,
                ord_h@,
                *f,
                i as int,
                region@,
            ));
            let held = regions;
            regions = regions.push(region@);
            hist_region::overlay_ignores_later(start, starts, held, region@, i as int);
            assert forall|k: int| 0 <= k < regions.len() implies #[trigger] regions[k].len() == 2
                * feats@[k].num_bin && is_scan_region(
                *add_to,
                zero,
                bins@,
                num_data as int,
                leaf_rows@,
                ord_g@,
                ord_h@,
                feats@[k],
                k,
                regions[k],
            ) by {
                if k < i {
                    assert(regions[k] == held[k]);
                }
            }
        }
        i += 1;
    }
    hist
}

/// There is nothing to build: no features, no rows or no columns.
pub open spec fn scan_is_empty(feats: Seq<BatchedSplitFeature>, rows: Seq<u32>, num_features: usize) -> bool {
    feats.len() == 0 || rows.len() == 0 || num_features == 0
}

/// What a pass gives: its fault, or the histogram of every feature, scanned or not, and the arrays
/// of the scan. Without features or rows the histogram is zeroed and there is nothing to scan.
pub open spec fn is_pass<C, V, A: Fn(C, V) -> C>(
    add_to: A,
    zero: C,
    bins: Seq<u32>,
    num_features: usize,
    num_data: int,
    slot_len: usize,
    rows: Seq<u32>,
    gradients: Seq<V>,
    hessians: Seq<V>,
    feats: Seq<BatchedSplitFeature>,
    active: Seq<bool>,
    cfg: GainConfig,
    sum_hessian: Real64,
    r: Result<(Vec<C>, Option<ScanPlan>), ComputeError>,
) -> bool {
    &&& error::fails_as(
        r,
        if scan_is_empty(feats, rows, num_features) {
            None
        } else {
            scan_fault(feats, active, slot_len, cfg, sum_hessian)
        },
    )
    &&& r matches Ok(done) ==> if scan_is_empty(feats, rows, num_features) {
        done.0@ == histogram::filled(slot_len as int, zero) && done.1 is None
    } else {
        &&& is_scan_histogram(
            add_to,
            zero,
            bins,
            num_data,
            rows,
            leaf_histogram::picked(gradients, rows),
            leaf_histogram::picked(hessians, rows),
            feats,
            slot_len,
            done.0@,
        )
        &&& done.1 matches Some(plan) && is_scan_plan(plan, feats, active, feats.len() as int)
    }
}

/// Check a pass over a leaf, build its histogram, and lay out the arrays of its scan. Without
/// features or rows the histogram is zeroed and there is nothing to scan.
pub fn build_fix_scan_resident_f64_on<C: Copy, V: Copy, A: Fn(C, V) -> C>(
    add_to: &A,
    zero: C,
    bins: &BinColumn,
    num_features: usize,
    num_data_stride: usize,
    slot_len: usize,
    leaf_rows: &[u32],
    gradients: &[V],
    hessians: &[V],
    feats: &[BatchedSplitFeature],
    scan_active: &[bool],
    cfg: &GainConfig,
    sum_hessian_raw: Real64,
) -> (r: Result<(Vec<C>, Option<ScanPlan>), ComputeError>)
    requires
        fold::is_total(*add_to),
        !scan_is_empty(feats@, leaf_rows@, num_features) && scan_fault(
            feats@,
            scan_active@,
            slot_len,
            *cfg,
            sum_hessian_raw,
        ) is None ==> scan_inputs_fit(
            bins@,
            num_data_stride as int,
            num_features as int,
            leaf_rows@,
            feats@,
            gradients@.len(),
            hessians@.len(),
        ),
    ensures
        is_pass(
            *add_to,
            zero,
            bins@,
            num_features,
            num_data_stride as int,
            slot_len,
            leaf_rows@,
            gradients@,
            hessians@,
            feats@,
            scan_active@,
            *cfg,
            sum_hessian_raw,
            r,
        ),
{
    if feats.len() == 0 || leaf_rows.len() == 0 || num_features == 0 {
        return Ok((histogram::zeroed(slot_len, zero), None));
    }
    let plan: ScanPlan = plan_scan(feats, scan_active, slot_len, cfg, sum_hessian_raw)?;
    let ord_g: Vec<V> = leaf_histogram::gather(gradients, leaf_rows);
    let ord_h: Vec<V> = leaf_histogram::gather(hessians, leaf_rows);
    let hist: Vec<C> = build_fix_scan_fused_kernel(
        add_to,
        zero,
        bins,
        num_data_stride,
        num_features,
        leaf_rows,
        ord_g.as_slice(),
        ord_h.as_slice(),
        feats,
        slot_len,
    );
    Ok((hist, Some(plan)))
}

/// The fault of a pass whose winner goes to slot `out_leaf` of `slots` slots.
pub open spec fn reduce_fault(
    feats: Seq<BatchedSplitFeature>,
    active: Seq<bool>,
    reals: nat,
    rows: Seq<u32>,
    num_features: usize,
    slot_len: usize,
    cfg: GainConfig,
    sum_hessian: Real64,
    slots: usize,
    out_leaf: usize,
) -> Option<Fault> {
    if reals != feats.len() {
        Some(Fault::LengthMismatch { expected: feats.len(), actual: reals })
    } else if scan_is_empty(feats, rows, num_features) {
        None
    } else if out_leaf >= slots {
        Some(Fault::LengthMismatch { expected: slots as nat, actual: out_leaf as nat })
    } else {
        scan_fault(feats, active, slot_len, cfg, sum_hessian)
    }
}

/// The same pass, with the winner over the features going to slot `out_leaf` of `slots` slots. A
/// leaf with rows whose slot is not there is refused, so no record is stored. Which record the
/// windows of its scan come to is said by `window_reduce::reduce_scanned_windows`.
pub fn build_fix_scan_resident_reduce_f64_on<C: Copy, V: Copy, A: Fn(C, V) -> C>(
    add_to: &A,
    zero: C,
    bins: &BinColumn,
    num_features: usize,
    num_data_stride: usize,
    slot_len: usize,
    leaf_rows: &[u32],
    gradients: &[V],
    hessians: &[V],
    feats: &[BatchedSplitFeature],
    scan_active: &[bool],
    real_feats: &[i32],
    cfg: &GainConfig,
    sum_hessian_raw: Real64,
    slots: usize,
    out_leaf: usize,
) -> (r: Result<(Vec<C>, Option<ScanPlan>), ComputeError>)
    requires
        fold::is_total(*add_to),
        !scan_is_empty(feats@, leaf_rows@, num_features) && reduce_fault(
            feats@,
            scan_active@,
            real_feats@.len(),
            leaf_rows@,
            num_features,
            slot_len,
            *cfg,
            sum_hessian_raw,
            slots,
            out_leaf,
        ) is None ==> scan_inputs_fit(
            bins@,
            num_data_stride as int,
            num_features as int,
            leaf_rows@,
            feats@,
            gradients@.len(),
            hessians@.len(),
        ),
    ensures
        error::fails_as(
            r,
            reduce_fault(
                feats@,
                scan_active@,
                real_feats@.len(),
                leaf_rows@,
                num_features,
                slot_len,
                *cfg,
                sum_hessian_raw,
                slots,
                out_leaf,
            ),
        ),
        r matches Ok(done) ==> if scan_is_empty(feats@, leaf_rows@, num_features) {
            done.0@ == histogram::filled(slot_len as int, zero) && done.1 is None
        } else {
            &&& is_scan_histogram(
                *add_to,
                zero,
                bins@,
                num_data_stride as int,
                leaf_rows@,
                leaf_histogram::picked(gradients@, leaf_rows@),
                leaf_histogram::picked(hessians@, leaf_rows@),
                feats@,
                slot_len,
                done.0@,
            )
            &&& done.1 matches Some(plan) && is_scan_plan(plan, feats@, scan_active@, feats@.len() as int)
        },
{
    if real_feats.len() != feats.len() {
        return Err(ComputeError::LengthMismatch { expected: feats.len(), actual: real_feats.len() });
    }
    let empty: bool = feats.len() == 0 || leaf_rows.len() == 0 || num_features == 0;
    if !empty && out_leaf >= slots {
        return Err(ComputeError::LengthMismatch { expected: slots, actual: out_leaf });
    }
    build_fix_scan_resident_f64_on(
        add_to,
        zero,
        bins,
        num_features,
        num_data_stride,
        slot_len,
        leaf_rows,
        gradients,
        hessians,
        feats,
        scan_active,
        cfg,
        sum_hessian_raw,
    )
}

/// What the scan of one feature wrote.
#[derive(Clone, Copy, Debug, PartialEq, Eq, Structural)]
pub struct ScannedSplit {
    /// The scan found an admissible threshold.
    pub is_splittable: bool,
    pub threshold: u32,
    /// The best gain, before the leaf's own gain is taken off.
    pub raw_gain: Real64,
    /// The best gain with the leaf's own gain and the smallest gain of a split taken off.
    pub shifted_gain: Real64,
    pub left_count: i32,
    pub right_count: i32,
    pub left_sum_gradient: Real64,
    pub left_sum_hessian: Real64,
    pub right_sum_gradient: Real64,
    pub right_sum_hessian: Real64,
    pub default_left: bool,
    pub left_output: Real64,
    pub right_output: Real64,
}

impl ScannedSplit {
    /// The scan found a threshold whose gain is above negative infinity.
    pub open spec fn accepted(self) -> bool {
        self.is_splittable && self.raw_gain.spec_above(Real64::spec_neg_infinity())
    }

    /// The candidate that the scan found, no split where it found none.
    pub open spec fn candidate(self) -> SplitInfo {
        if self.accepted() {
            SplitInfo {
                gain: self.shifted_gain,
                threshold: self.threshold,
                default_left: self.default_left,
                left_sum_gradient: self.left_sum_gradient,
                left_sum_hessian: self.left_sum_hessian,
                left_output: self.left_output,
                left_count: self.left_count,
                right_sum_gradient: self.right_sum_gradient,
                right_sum_hessian: self.right_sum_hessian,
                right_output: self.right_output,
                right_count: self.right_count,
            }
        } else {
            SplitInfo::spec_none()
        }
    }

    /// The candidate that the scan found, no split where it found none.
    pub fn to_candidate(&self) -> (s: SplitInfo)
        ensures
            s == self.candidate(),
            self.is_splittable && self.raw_gain.spec_above(Real64::spec_neg_infinity()) ==> {
                &&& s.gain == self.shifted_gain
                &&& s.threshold == self.threshold
                &&& s.default_left == self.default_left
                &&& s.left_sum_gradient == self.left_sum_gradient
                &&& s.left_sum_hessian == self.left_sum_hessian
                &&& s.left_output == self.left_output
                &&& s.left_count == self.left_count
                &&& s.right_sum_gradient == self.right_sum_gradient
                &&& s.right_sum_hessian == self.right_sum_hessian
                &&& s.right_output == self.right_output
                &&& s.right_count == self.right_count
            },
            !(self.is_splittable && self.raw_gain.spec_above(Real64::spec_neg_infinity())) ==> s.gain
                == Real64::spec_neg_infinity(),
    {
        if self.is_splittable && self.raw_gain.above(Real64::neg_infinity()) {
            SplitInfo {
                gain: self.shifted_gain,
                threshold: self.threshold,
                default_left: self.default_left,
                left_sum_gradient: self.left_sum_gradient,
                left_sum_hessian: self.left_sum_hessian,
                left_output: self.left_output,
                left_count: self.left_count,
                right_sum_gradient: self.right_sum_gradient,
                right_sum_hessian: self.right_sum_hessian,
                right_output: self.right_output,
                right_count: self.right_count,
            }
        } else {
            SplitInfo::none()
        }
    }
}

/// The candidate of each feature.
pub open spec fn candidates(scanned: Seq<ScannedSplit>) -> Seq<SplitInfo> {
    Seq::new(scanned.len(), |i: int| scanned[i].candidate())
}

/// The candidates of the features that were scanned, in their order.
pub fn decode_splits(scanned: &[ScannedSplit], scan_active: &[bool]) -> (splits: Vec<SplitInfo>)
    requires
        scanned@.len() == scan_active@.len(),
    ensures
        splits@ == stable::chosen(candidates(scanned@), scan_active@, true),
        forall|i: int|
            #![trigger scanned@[i]]
            0 <= i < scanned@.len() && scan_active@[i] && scanned@[i].is_splittable
                && scanned@[i].raw_gain.spec_above(Real64::spec_neg_infinity()) ==> {
                let p = stable::tally(scan_active@.take(i), true) as int;
                &&& p < splits@.len()
                &&& splits@[p].gain == scanned@[i].shifted_gain
                &&& splits@[p].threshold == scanned@[i].threshold
                &&& splits@[p].default_left == scanned@[i].default_left
                &&& splits@[p].left_sum_gradient == scanned@[i].left_sum_gradient
                &&& splits@[p].left_sum_hessian == scanned@[i].left_sum_hessian
                &&& splits@[p].left_output == scanned@[i].left_output
                &&& splits@[p].left_count == scanned@[i].left_count
                &&& splits@[p].right_sum_gradient == scanned@[i].right_sum_gradient
                &&& splits@[p].right_sum_hessian == scanned@[i].right_sum_hessian
                &&& splits@[p].right_output == scanned@[i].right_output
                &&& splits@[p].right_count == scanned@[i].right_count
            },
{
    let mut splits: Vec<SplitInfo> = Vec::new();
    let ghost all = candidates(scanned@);
    let mut i: usize = 0;
    while i < scanned.len()
        invariant
            i <= scanned@.len(),
            scanned@.len() == scan_active@.len(),
            all == candidates(scanned@),
            splits@ == stable::chosen(all.take(i as int), scan_active@.take(i as int), true),
        decreases scanned@.len() - i,
    {
        proof {
            stable::chosen_extends(all, scan_active@, i as int, true);
        }
        if scan_active[i] {
            splits.push(scanned[i].to_candidate());
        }
        i += 1;
    }
    assert(all.take(i as int) =~= all);
    assert(scan_active@.take(i as int) =~= scan_active@);
    proof {
        assert forall|k: int| 0 <= k < scanned@.len() && scan_active@[k] implies {
            let p = stable::tally(scan_active@.take(k), true) as int;
            p < splits@.len() && splits@[p] == (#[trigger] scanned@[k]).candidate()
        } by {
            stable::chosen_at(all, scan_active@, k, true);
        }
    }
    splits
}

/// Which positions are not marked.
pub open spec fn unmarked(marks: Seq<bool>) -> Seq<bool> {
    Seq::new(marks.len(), |i: int| !marks[i])
}

/// No position is left out.
pub open spec fn none_skipped(n: int) -> Seq<bool> {
    Seq::new(n as nat, |i: int| false)
}

/// The winner over all features with those left out that were not scanned is the winner over the
/// scanned features alone: the same candidate, of the same feature. A feature that was not scanned
/// never wins.
#[verifier::spinoff_prover]
pub proof fn unscanned_features_never_win(
    splits: Seq<SplitInfo>,
    active: Seq<bool>,
    features: Seq<i32>,
    n: int,
)
    requires
        0 <= n <= splits.len(),
        splits.len() == active.len(),
        splits.len() == features.len(),
    ensures
        ({
            let kept = stable::chosen(splits.take(n), active.take(n), true);
            let kept_features = stable::chosen(features.take(n), active.take(n), true);
            let w = split_order::winner(splits, unmarked(active), features, n);
            let v = split_order::winner(
                kept,
                none_skipped(kept.len() as int),
                kept_features,
                kept.len() as int,
            );
            &&& kept.len() == kept_features.len()
            &&& split_order::held(splits, w) == split_order::held(kept, v)
            &&& split_order::held_feature(features, w) == split_order::held_feature(kept_features, v)
            &&& w >= 0 ==> active[w]
        }),
    decreases n,
{
    stable::chosen_len(splits.take(n), active.take(n), true);
    stable::chosen_len(features.take(n), active.take(n), true);
    split_order::winner_takes_part(splits, unmarked(active), features, n);
    if n > 0 {
        unscanned_features_never_win(splits, active, features, n - 1);
        stable::chosen_extends(splits, active, n - 1, true);
        stable::chosen_extends(features, active, n - 1, true);
        let before = stable::chosen(splits.take(n - 1), active.take(n - 1), true);
        let features_before = stable::chosen(features.take(n - 1), active.take(n - 1), true);
        let kept = stable::chosen(splits.take(n), active.take(n), true);
        let kept_features = stable::chosen(features.take(n), active.take(n), true);
        let m = before.len() as int;
        stable::chosen_len(splits.take(n - 1), active.take(n - 1), true);
        if active[n - 1] {
            winner_of_prefix(
                before,
                none_skipped(m),
                features_before,
                kept,
                none_skipped(m + 1),
                kept_features,
                m,
            );
            split_order::winner_takes_part(before, none_skipped(m), features_before, m);
            split_order::winner_takes_part(splits, unmarked(active), features, n - 1);
        }
    }
}

/// A winner depends on the candidates up to its bound alone.
#[verifier::spinoff_prover]
proof fn winner_of_prefix(
    a: Seq<SplitInfo>,
    a_skip: Seq<bool>,
    a_features: Seq<i32>,
    b: Seq<SplitInfo>,
    b_skip: Seq<bool>,
    b_features: Seq<i32>,
    n: int,
)
    requires
        0 <= n <= a.len(),
        n <= b.len(),
        forall|i: int|
            0 <= i < n ==> #[trigger] a[i] == b[i] && a_skip[i] == b_skip[i] && a_features[i] == b_features[i],
    ensures
        split_order::winner(a, a_skip, a_features, n) == split_order::winner(b, b_skip, b_features, n),
    decreases n,
{
    if n > 0 {
        assert forall|i: int| 0 <= i < n - 1 implies #[trigger] a[i] == b[i] && a_skip[i] == b_skip[i]
            && a_features[i] == b_features[i] by {
            assert(a[i] == b[i]);
        }
        winner_of_prefix(a, a_skip, a_features, b, b_skip, b_features, n - 1);
        split_order::winner_takes_part(a, a_skip, a_features, n - 1);
        assert(a[n - 1] == b[n - 1]);
        let w = split_order::winner(a, a_skip, a_features, n - 1);
        if w >= 0 {
            assert(a[w] == b[w]);
        }
    }
}

} // verus!
