//! A leaf's histogram: one repaired and compacted region per feature, one behind the other.
use crate::error;
use crate::error::{ComputeError, Fault};
use crate::fold;
use crate::kernels::data_partition;
use crate::kernels::grow_feature;
use crate::kernels::grow_feature::GrowFeature;
use crate::kernels::hist_region;
use crate::kernels::histogram;
use vstd::prelude::*;

verus! {

/// The values of the given rows.
pub open spec fn picked<V>(values: Seq<V>, rows: Seq<u32>) -> Seq<V> {
    Seq::new(rows.len(), |i: int| values[rows[i] as int])
}

/// The values of the given rows, in the order of the rows.
pub fn gather<V: Copy>(values: &[V], rows: &[u32]) -> (out: Vec<V>)
    requires
        forall|i: int| 0 <= i < rows@.len() ==> #[trigger] rows@[i] < values@.len(),
    ensures
        out@ == picked(values@, rows@),
{
    let mut out: Vec<V> = Vec::with_capacity(rows.len());
    let mut i: usize = 0;
    while i < rows.len()
        invariant
            i <= rows@.len(),
            forall|k: int| 0 <= k < rows@.len() ==> #[trigger] rows@[k] < values@.len(),
            out@ == picked(values@, rows@).take(i as int),
        decreases rows@.len() - i,
    {
        out.push(values[rows[i] as usize]);
        i += 1;
        assert(out@ =~= picked(values@, rows@).take(i as int));
    }
    assert(out@ =~= picked(values@, rows@));
    out
}

/// The histogram of a feature over the gathered gradients and hessians of a leaf: folded in row
/// order, then repaired with the leaf's sums, then compacted.
pub open spec fn is_leaf_region<C, V, A: Fn(C, V) -> C, S: Fn(C, C) -> C>(
    add_to: A,
    take_off: S,
    zero: C,
    f: GrowFeature,
    rows: Seq<u32>,
    grad: Seq<V>,
    hess: Seq<V>,
    sum_g: C,
    sum_h: C,
    region: Seq<C>,
) -> bool {
    exists|raw: Seq<C>, fixed: Seq<C>|
        {
            &&& #[trigger] histogram::is_histogram(
                add_to,
                histogram::filled(2 * f.num_bin, zero),
                data_partition::gathered(f.bins@, rows),
                grad,
                hess,
                f.num_bin,
                raw,
            )
            &&& #[trigger] hist_region::is_repaired(take_off, raw, f.most_freq_bin, sum_g, sum_h, fixed)
            &&& region == hist_region::compacted(fixed, f.offset as int, zero)
        }
}

/// Where each feature's region starts.
pub open spec fn region_starts(slot_off: Seq<usize>) -> Seq<int> {
    Seq::new(slot_off.len(), |i: int| slot_off[i] as int)
}

/// The regions are those of the features, one per feature.
pub open spec fn are_leaf_regions<C, V, A: Fn(C, V) -> C, S: Fn(C, C) -> C>(
    add_to: A,
    take_off: S,
    zero: C,
    features: Seq<GrowFeature>,
    rows: Seq<u32>,
    grad: Seq<V>,
    hess: Seq<V>,
    sum_g: C,
    sum_h: C,
    regions: Seq<Seq<C>>,
) -> bool {
    &&& regions.len() == features.len()
    &&& forall|i: int|
        0 <= i < features.len() ==> #[trigger] regions[i].len() == 2 * features[i].num_bin
            && is_leaf_region(add_to, take_off, zero, features[i], rows, grad, hess, sum_g, sum_h, regions[i])
}

/// The leaf's histogram: the region of each feature, written at its place into zeroed cells. A
/// leaf without rows has zeroed cells.
pub open spec fn is_leaf_histogram<C, V, A: Fn(C, V) -> C, S: Fn(C, C) -> C>(
    add_to: A,
    take_off: S,
    zero: C,
    features: Seq<GrowFeature>,
    gradients: Seq<V>,
    hessians: Seq<V>,
    rows: Seq<u32>,
    sum_g: C,
    sum_h: C,
    slot_off: Seq<usize>,
    hist_len: usize,
    out: Seq<C>,
) -> bool {
    let start = histogram::filled(hist_len as int, zero);
    if rows.len() == 0 {
        out == start
    } else {
        exists|regions: Seq<Seq<C>>|
            {
                &&& #[trigger] are_leaf_regions(
                    add_to,
                    take_off,
                    zero,
                    features,
                    rows,
                    picked(gradients, rows),
                    picked(hessians, rows),
                    sum_g,
                    sum_h,
                    regions,
                )
                &&& out == hist_region::overlaid(
                    start,
                    region_starts(slot_off),
                    regions,
                    regions.len() as int,
                )
            }
    }
}

/// The fault of the first feature, from `from` on, whose histogram over the rows is refused.
pub open spec fn first_histogram_fault(features: Seq<GrowFeature>, rows: Seq<u32>, from: int) -> Option<Fault>
    decreases features.len() - from,
{
    if from >= features.len() {
        None
    } else {
        let f = features[from];
        match histogram::histogram_fault(
            data_partition::gathered(f.bins@, rows),
            rows.len(),
            rows.len(),
            f.num_bin,
        ) {
            Some(fault) => Some(fault),
            None => first_histogram_fault(features, rows, from + 1),
        }
    }
}

/// The fault of a leaf's histogram; a leaf without rows has none.
pub open spec fn leaf_histogram_fault(features: Seq<GrowFeature>, rows: Seq<u32>) -> Option<Fault> {
    if rows.len() == 0 {
        None
    } else {
        first_histogram_fault(features, rows, 0)
    }
}

/// Build one leaf's histogram: each feature's region is folded over the leaf's rows, repaired and
/// compacted.
pub fn build_leaf_hist<C: Copy, V: Copy, A: Fn(C, V) -> C, S: Fn(C, C) -> C>(
    add_to: &A,
    take_off: &S,
    zero: C,
    features: &[GrowFeature],
    gradients: &[V],
    hessians: &[V],
    rows: &[u32],
    sum_g: C,
    sum_h: C,
    slot_off: &[usize],
    hist_len: usize,
) -> (r: Result<Vec<C>, ComputeError>)
    requires
        fold::is_total(*add_to),
        fold::is_total(*take_off),
        slot_off@.len() == features@.len(),
        forall|i: int|
            0 <= i < features@.len() ==> #[trigger] slot_off@[i] + 2 * features@[i].num_bin <= hist_len,
        forall|k: int|
            0 <= k < rows@.len() ==> #[trigger] rows@[k] < gradients@.len() && rows@[k] < hessians@.len(),
        forall|i: int, k: int|
            0 <= i < features@.len() && 0 <= k < rows@.len() ==> #[trigger] rows@[k] < (
            #[trigger] features@[i]).bins@.len(),
    ensures
        error::fails_as(r, leaf_histogram_fault(features@, rows@)),
        r matches Ok(out) ==> is_leaf_histogram(
            *add_to,
            *take_off,
            zero,
            features@,
            gradients@,
            hessians@,
            rows@,
            sum_g,
            sum_h,
            slot_off@,
            hist_len,
            out@,
        ),
{
    let mut concat: Vec<C> = histogram::zeroed(hist_len, zero);
    if rows.len() == 0 {
        return Ok(concat);
    }
    let g: Vec<V> = gather(gradients, rows);
    let h: Vec<V> = gather(hessians, rows);
    let ghost start = concat@;
    let ghost starts = region_starts(slot_off@);
    let ghost mut regions: Seq<Seq<C>> = Seq::empty();
    let mut fpos: usize = 0;
    while fpos < features.len()
        invariant
            fpos <= features@.len(),
            rows@.len() > 0,
            fold::is_total(*add_to),
            fold::is_total(*take_off),
            slot_off@.len() == features@.len(),
            forall|i: int|
                0 <= i < features@.len() ==> #[trigger] slot_off@[i] + 2 * features@[i].num_bin <= hist_len,
            forall|i: int, k: int|
                0 <= i < features@.len() && 0 <= k < rows@.len() ==> #[trigger] rows@[k] < (
                #[trigger] features@[i]).bins@.len(),
            g@ == picked(gradients@, rows@),
            h@ == picked(hessians@, rows@),
            start == histogram::filled(hist_len as int, zero),
            starts == region_starts(slot_off@),
            first_histogram_fault(features@, rows@, 0) == first_histogram_fault(features@, rows@, fpos as int),
            are_leaf_regions(
                *add_to,
                *take_off,
                zero,
                features@.take(fpos as int),
                rows@,
                g@,
                h@,
                sum_g,
                sum_h,
                regions,
            ),
            concat@.len() == hist_len,
            concat@ == hist_region::overlaid(start, starts, regions, fpos as int),
        decreases features@.len() - fpos,
    {
        let f: &GrowFeature = &features[fpos];
        let mut binned: Vec<u32> = Vec::with_capacity(rows.len());
        let mut k: usize = 0;
        while k < rows.len()
            invariant
                k <= rows@.len(),
                forall|j: int| 0 <= j < rows@.len() ==> #[trigger] rows@[j] < f.bins@.len(),
                binned@ == data_partition::gathered(f.bins@, rows@).take(k as int),
            decreases rows@.len() - k,
        {
            binned.push(f.bins.bin(rows[k] as usize));
            k += 1;
            assert(binned@ =~= data_partition::gathered(f.bins@, rows@).take(k as int));
        }
        assert(binned@ =~= data_partition::gathered(f.bins@, rows@));
        let built = histogram::construct_histograms_f64_on(
            add_to,
            zero,
            binned.as_slice(),
            g.as_slice(),
            h.as_slice(),
            f.num_bin,
        );
        let mut region: Vec<C> = match built {
            Ok(region) => region,
            Err(e) => {
                return Err(e);
            },
        };
        let ghost raw = region@;
        hist_region::fix_histogram(take_off, region.as_mut_slice(), f.most_freq_bin, sum_g, sum_h);
        let ghost fixed = region@;
        hist_region::compact_histogram(region.as_mut_slice(), f.offset, zero);
        assert(slot_off@[fpos as int] + 2 * features@[fpos as int].num_bin <= hist_len);
        hist_region::paste(&mut concat, slot_off[fpos], region.as_slice());
        proof {
            assert(is_leaf_region(
                *add_to,
                *take_off,
                zero,
                *f,
                rows@,
                g@,
                h@,
                sum_g,
                sum_h,
                region@,
            )) by {
                assert(histogram::is_histogram(
                    *add_to,
                    histogram::filled(2 * f.num_bin, zero),
                    data_partition::gathered(f.bins@, rows@),
                    g@,
                    h@,
                    f.num_bin,
                    raw,
                ));
                assert(hist_region::is_repaired(*take_off, raw, f.most_freq_bin, sum_g, sum_h, fixed));
            }
            let held = regions;
            regions = regions.push(region@);
            hist_region::overlay_ignores_later(start, starts, held, region@, fpos as int);
        }
        fpos += 1;
    }
    assert(features@.take(fpos as int) =~= features@);
    Ok(concat)
}

/// With the features' regions one behind the other, the cells of each feature hold its own region.
pub proof fn leaf_regions_stand_apart<C, V, A: Fn(C, V) -> C, S: Fn(C, C) -> C>(
    add_to: A,
    take_off: S,
    zero: C,
    features: Seq<GrowFeature>,
    gradients: Seq<V>,
    hessians: Seq<V>,
    rows: Seq<u32>,
    sum_g: C,
    sum_h: C,
    slot_off: Seq<usize>,
    hist_len: usize,
    out: Seq<C>,
    i: int,
)
    requires
        rows.len() > 0,
        0 <= i < features.len(),
        slot_off.len() == features.len(),
        forall|k: int|
            0 <= k < features.len() ==> #[trigger] slot_off[k] == grow_feature::cells_before(features, k),
        hist_len == grow_feature::cells_before(features, features.len() as int),
        is_leaf_histogram(
            add_to,
            take_off,
            zero,
            features,
            gradients,
            hessians,
            rows,
            sum_g,
            sum_h,
            slot_off,
            hist_len,
            out,
        ),
    ensures
        out.len() == hist_len,
        slot_off[i] + 2 * features[i].num_bin <= hist_len,
        is_leaf_region(
            add_to,
            take_off,
            zero,
            features[i],
            rows,
            picked(gradients, rows),
            picked(hessians, rows),
            sum_g,
            sum_h,
            out.subrange(slot_off[i] as int, slot_off[i] + 2 * features[i].num_bin),
        ),
{
    let start = histogram::filled(hist_len as int, zero);
    let starts = region_starts(slot_off);
    let regions = choose|regions: Seq<Seq<C>>|
        {
            &&& #[trigger] are_leaf_regions(
                add_to,
                take_off,
                zero,
                features,
                rows,
                picked(gradients, rows),
                picked(hessians, rows),
                sum_g,
                sum_h,
                regions,
            )
            &&& out == hist_region::overlaid(start, starts, regions, regions.len() as int)
        };
    assert forall|k: int, j: int| 0 <= k < j < regions.len() implies #[trigger] starts[k] + regions[k].len()
        <= #[trigger] starts[j] by {
        grow_feature::feature_regions_are_disjoint(features, k, j);
        assert(regions[k].len() == 2 * features[k].num_bin);
        assert(slot_off[k] == grow_feature::cells_before(features, k));
        assert(slot_off[j] == grow_feature::cells_before(features, j));
    }
    assert forall|k: int| 0 <= k < regions.len() implies 0 <= #[trigger] starts[k] && starts[k]
        + regions[k].len() <= start.len() by {
        grow_feature::cells_before_monotone(features, k + 1, features.len() as int);
        assert(regions[k].len() == 2 * features[k].num_bin);
        assert(slot_off[k] == grow_feature::cells_before(features, k));
    }
    hist_region::disjoint_parts_stay(start, starts, regions, regions.len() as int);
    assert(regions[i].len() == 2 * features[i].num_bin);
    assert(starts[i] + regions[i].len() <= start.len());
}

} // verus!
