//! What the mask of scanned features does to a one-pass build and scan, and what it leaves alone.
use crate::error::ComputeError;
use crate::fold;
use crate::gain::GainConfig;
use crate::kernels::fixed_build;
use crate::kernels::fused_scan;
use crate::kernels::fused_scan::{ScanPlan, ScannedSplit};
use crate::kernels::grow_feature::BatchedSplitFeature;
use crate::kernels::hist_region;
use crate::kernels::histogram;
use crate::kernels::leaf_histogram;
use crate::number::Real64;
use crate::stable;
use vstd::prelude::*;

verus! {

/// Parts that are equal up to `n` give the same cells.
proof fn equal_parts_overlay_equally<C>(
    cells: Seq<C>,
    at: Seq<int>,
    a: Seq<Seq<C>>,
    b: Seq<Seq<C>>,
    n: int,
)
    requires
        forall|i: int| 0 <= i < n ==> #[trigger] a[i] == b[i],
    ensures
        hist_region::overlaid(cells, at, a, n) == hist_region::overlaid(cells, at, b, n),
    decreases n,
{
    if n > 0 {
        equal_parts_overlay_equally(cells, at, a, b, n - 1);
        assert(a[n - 1] == b[n - 1]);
    }
}

/// A feature's region is one: the rows, the feature and an addition that is a function fix it.
proof fn region_is_unique<C, V, A: Fn(C, V) -> C>(
    add_to: A,
    zero: C,
    bins: Seq<u32>,
    num_data: int,
    rows: Seq<u32>,
    grad: Seq<V>,
    hess: Seq<V>,
    f: BatchedSplitFeature,
    fpos: int,
    a: Seq<C>,
    b: Seq<C>,
)
    requires
        fold::is_function(add_to),
        fused_scan::is_scan_region(add_to, zero, bins, num_data, rows, grad, hess, f, fpos, a),
        fused_scan::is_scan_region(add_to, zero, bins, num_data, rows, grad, hess, f, fpos, b),
    ensures
        a == b,
{
    let binned = fixed_build::column_bins(bins, num_data, fpos, rows);
    let before = histogram::filled(2 * f.num_bin, zero);
    let x = choose|x: Seq<C>| #[trigger]
        histogram::is_histogram(add_to, before, binned, grad, hess, f.num_bin, x) && a
            == hist_region::compacted(x, f.offset as int, zero);
    let y = choose|y: Seq<C>| #[trigger]
        histogram::is_histogram(add_to, before, binned, grad, hess, f.num_bin, y) && b
            == hist_region::compacted(y, f.offset as int, zero);
    histogram::histogram_is_unique(add_to, before, binned, grad, hess, f.num_bin, x, y);
}

/// Which features are scanned does not touch the histogram: two passes over the same rows, with
/// any two masks, leave the same `slot_len` cells.
pub proof fn masks_leave_one_histogram<C, V, A: Fn(C, V) -> C>(
    add_to: A,
    zero: C,
    bins: Seq<u32>,
    num_data: int,
    rows: Seq<u32>,
    grad: Seq<V>,
    hess: Seq<V>,
    feats: Seq<BatchedSplitFeature>,
    slot_len: usize,
    a: Seq<C>,
    b: Seq<C>,
)
    requires
        fold::is_function(add_to),
        fused_scan::scan_regions_fit(feats, slot_len as nat),
        fused_scan::is_scan_histogram(add_to, zero, bins, num_data, rows, grad, hess, feats, slot_len, a),
        fused_scan::is_scan_histogram(add_to, zero, bins, num_data, rows, grad, hess, feats, slot_len, b),
    ensures
        a == b,
        a.len() == slot_len,
{
    let start = histogram::filled(slot_len as int, zero);
    let starts = fused_scan::scan_starts(feats);
    let x = choose|x: Seq<Seq<C>>|
        {
            &&& #[trigger] fused_scan::are_scan_regions(add_to, zero, bins, num_data, rows, grad, hess, feats, x)
            &&& x.len() == feats.len()
            &&& a == hist_region::overlaid(start, starts, x, x.len() as int)
        };
    let y = choose|y: Seq<Seq<C>>|
        {
            &&& #[trigger] fused_scan::are_scan_regions(add_to, zero, bins, num_data, rows, grad, hess, feats, y)
            &&& y.len() == feats.len()
            &&& b == hist_region::overlaid(start, starts, y, y.len() as int)
        };
    assert forall|i: int| 0 <= i < feats.len() implies #[trigger] x[i] == y[i] by {
        assert(x[i].len() == 2 * feats[i].num_bin);
        assert(y[i].len() == 2 * feats[i].num_bin);
        region_is_unique(add_to, zero, bins, num_data, rows, grad, hess, feats[i], i, x[i], y[i]);
    }
    equal_parts_overlay_equally(start, starts, x, y, feats.len() as int);
    assert forall|i: int| 0 <= i < x.len() implies 0 <= #[trigger] starts[i] && starts[i] + x[i].len()
        <= slot_len by {
        assert(x[i].len() == 2 * feats[i].num_bin);
    }
    hist_region::overlaid_len(start, starts, x, x.len() as int);
}

/// A mask picks candidates and changes none: as many come back as features are scanned, in the
/// order of the features, and a feature that two masks both scan, with the same window, has the
/// same candidate under both.
pub proof fn masks_agree_on_common_features(
    scanned_a: Seq<ScannedSplit>,
    scanned_b: Seq<ScannedSplit>,
    a: Seq<bool>,
    b: Seq<bool>,
    i: int,
)
    requires
        a.len() == scanned_a.len(),
        b.len() == scanned_b.len(),
        0 <= i < scanned_a.len(),
        i < scanned_b.len(),
        a[i] && b[i],
        scanned_a[i] == scanned_b[i],
    ensures
        ({
            let under_a = stable::chosen(fused_scan::candidates(scanned_a), a, true);
            let under_b = stable::chosen(fused_scan::candidates(scanned_b), b, true);
            let at_a = stable::tally(a.take(i), true) as int;
            let at_b = stable::tally(b.take(i), true) as int;
            &&& under_a.len() == stable::tally(a, true)
            &&& under_b.len() == stable::tally(b, true)
            &&& at_a < under_a.len() && at_b < under_b.len()
            &&& under_a[at_a] == scanned_a[i].candidate()
            &&& under_b[at_b] == under_a[at_a]
        }),
{
    let all_a = fused_scan::candidates(scanned_a);
    let all_b = fused_scan::candidates(scanned_b);
    stable::chosen_len(all_a, a, true);
    stable::chosen_len(all_b, b, true);
    stable::chosen_at(all_a, a, i, true);
    stable::chosen_at(all_b, b, i, true);
}

/// The windows of the features that a mask scans are what `scan` makes of the histogram.
pub open spec fn scans_as<C>(
    scan: spec_fn(Seq<C>, int) -> ScannedSplit,
    hist: Seq<C>,
    active: Seq<bool>,
    windows: Seq<ScannedSplit>,
) -> bool {
    &&& windows.len() == active.len()
    &&& forall|i: int| 0 <= i < active.len() && active[i] ==> #[trigger] windows[i] == scan(hist, i)
}

/// Two passes over a leaf that differ in their masks alone, and both succeed, leave the same
/// histogram of `slot_len` cells. Under each mask as many candidates come back as it scans
/// features, and a feature that both scan has the same candidate, at its rank among the scanned
/// ones.
pub proof fn passes_differ_only_by_their_masks<C, V, A: Fn(C, V) -> C>(
    add_to: A,
    zero: C,
    bins: Seq<u32>,
    num_features: usize,
    num_data: int,
    slot_len: usize,
    rows: Seq<u32>,
    gradients: Seq<V>,
    hessians: Seq<V>,
    feats: Seq<BatchedSplitFeature>,
    cfg: GainConfig,
    sum_hessian: Real64,
    a: Seq<bool>,
    b: Seq<bool>,
    pass_a: Result<(Vec<C>, Option<ScanPlan>), ComputeError>,
    pass_b: Result<(Vec<C>, Option<ScanPlan>), ComputeError>,
    scan: spec_fn(Seq<C>, int) -> ScannedSplit,
    windows_a: Seq<ScannedSplit>,
    windows_b: Seq<ScannedSplit>,
)
    requires
        fold::is_function(add_to),
        !fused_scan::scan_is_empty(feats, rows, num_features),
        fused_scan::is_pass(
            add_to,
            zero,
            bins,
            num_features,
            num_data,
            slot_len,
            rows,
            gradients,
            hessians,
            feats,
            a,
            cfg,
            sum_hessian,
            pass_a,
        ),
        fused_scan::is_pass(
            add_to,
            zero,
            bins,
            num_features,
            num_data,
            slot_len,
            rows,
            gradients,
            hessians,
            feats,
            b,
            cfg,
            sum_hessian,
            pass_b,
        ),
        pass_a is Ok,
        pass_b is Ok,
        scans_as(scan, pass_a->Ok_0.0@, a, windows_a),
        scans_as(scan, pass_b->Ok_0.0@, b, windows_b),
    ensures
        pass_a->Ok_0.0@ == pass_b->Ok_0.0@,
        pass_a->Ok_0.0@.len() == slot_len,
        stable::chosen(fused_scan::candidates(windows_a), a, true).len() == stable::tally(a, true),
        stable::chosen(fused_scan::candidates(windows_b), b, true).len() == stable::tally(b, true),
        forall|i: int|
            0 <= i < feats.len() && a[i] && b[i] ==> stable::chosen(
                fused_scan::candidates(windows_a),
                a,
                true,
            )[#[trigger] stable::tally(a.take(i), true) as int] == stable::chosen(
                fused_scan::candidates(windows_b),
                b,
                true,
            )[stable::tally(b.take(i), true) as int],
{
    fused_scan::faultless_regions_fit(feats, a, slot_len, 0);
    masks_leave_one_histogram(
        add_to,
        zero,
        bins,
        num_data,
        rows,
        leaf_histogram::picked(gradients, rows),
        leaf_histogram::picked(hessians, rows),
        feats,
        slot_len,
        pass_a->Ok_0.0@,
        pass_b->Ok_0.0@,
    );
    stable::chosen_len(fused_scan::candidates(windows_a), a, true);
    stable::chosen_len(fused_scan::candidates(windows_b), b, true);
    assert forall|i: int| 0 <= i < feats.len() && a[i] && b[i] implies stable::chosen(
        fused_scan::candidates(windows_a),
        a,
        true,
    )[#[trigger] stable::tally(a.take(i), true) as int] == stable::chosen(
        fused_scan::candidates(windows_b),
        b,
        true,
    )[stable::tally(b.take(i), true) as int] by {
        assert(windows_a[i] == scan(pass_a->Ok_0.0@, i));
        assert(windows_b[i] == scan(pass_b->Ok_0.0@, i));
        masks_agree_on_common_features(windows_a, windows_b, a, b, i);
    }
}

} // verus!
