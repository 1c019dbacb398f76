//! The pass over a leaf's raw histogram: from fixed-point bits to cells, with the repair of the
//! most frequent bins or the compaction of the regions.
use crate::error;
use crate::error::{ComputeError, Fault};
use crate::fold;
use crate::kernels::hist_region;
use crate::kernels::histogram;
use vstd::prelude::*;

verus! {

/// The signed number whose two's complement the bits are.
pub open spec fn spec_signed_bits(bits: u64) -> i64 {
    if bits <= i64::MAX {
        bits as i64
    } else {
        (bits - 0x1_0000_0000_0000_0000) as i64
    }
}

/// The signed number whose two's complement the bits are.
pub fn signed_bits(bits: u64) -> (v: i64)
    ensures
        v == spec_signed_bits(bits),
{
    if bits <= i64::MAX as u64 {
        bits as i64
    } else {
        -1 - ((u64::MAX - bits) as i64)
    }
}

/// Each cell of `out` is what `scale` makes of the signed number in the raw cell.
pub open spec fn is_dequantised<C, F: Fn(i64) -> C>(scale: F, raw: Seq<u64>, out: Seq<C>) -> bool {
    &&& out.len() == raw.len()
    &&& forall|c: int|
        0 <= c < raw.len() ==> call_ensures(scale, (spec_signed_bits(raw[c]),), #[trigger] out[c])
}

/// `scale` can be called on every number.
pub open spec fn scales_all<C, F: Fn(i64) -> C>(scale: F) -> bool {
    forall|v: i64| #[trigger] call_requires(scale, (v,))
}

/// The cells of a raw histogram: each raw cell holds a signed fixed-point number, and `scale`
/// makes a cell of it.
pub fn dequant_leaf_hist<C, F: Fn(i64) -> C>(scale: &F, raw: &[u64]) -> (out: Vec<C>)
    requires
        scales_all(*scale),
    ensures
        is_dequantised(*scale, raw@, out@),
{
    let mut out: Vec<C> = Vec::with_capacity(raw.len());
    let mut i: usize = 0;
    while i < raw.len()
        invariant
            i <= raw@.len(),
            scales_all(*scale),
            is_dequantised(*scale, raw@.take(i as int), out@),
        decreases raw@.len() - i,
    {
        let v: i64 = signed_bits(raw[i]);
        let cell: C = scale(v);
        out.push(cell);
        i += 1;
    }
    assert(raw@.take(i as int) =~= raw@);
    out
}

/// The fault of the first feature, from `from` on, whose region does not fit.
pub open spec fn first_region_fault(
    owner: Seq<char>,
    feats: Seq<(usize, u32, i32, u32)>,
    len: nat,
    from: int,
) -> Option<Fault>
    decreases feats.len() - from,
{
    if from >= feats.len() {
        None
    } else {
        match hist_region::region_fault(owner, feats[from].0, feats[from].1, len) {
            Some(fault) => Some(fault),
            None => first_region_fault(owner, feats, len, from + 1),
        }
    }
}

/// Every feature's region lies within `len` cells.
pub open spec fn regions_fit(feats: Seq<(usize, u32, i32, u32)>, len: nat) -> bool {
    forall|i: int| 0 <= i < feats.len() ==> (#[trigger] feats[i]).0 + 2 * feats[i].1 <= len
}

/// Check the regions of the features, given as first cell, bins, offset and most frequent bin.
pub fn check_regions(owner: &str, feats: &[(usize, u32, i32, u32)], len: usize) -> (r: Result<(), ComputeError>)
    ensures
        error::fails_as(r, first_region_fault(owner@, feats@, len as nat, 0)),
        r is Ok ==> regions_fit(feats@, len as nat),
{
    let mut i: usize = 0;
    while i < feats.len()
        invariant
            i <= feats@.len(),
            first_region_fault(owner@, feats@, len as nat, 0) == first_region_fault(
                owner@,
                feats@,
                len as nat,
                i as int,
            ),
            regions_fit(feats@.take(i as int), len as nat),
        decreases feats@.len() - i,
    {
        hist_region::check_region(owner, feats[i].0, feats[i].1, len)?;
        assert(feats@.take(i + 1).drop_last() =~= feats@.take(i as int));
        assert forall|k: int| 0 <= k < i + 1 implies (#[trigger] feats@.take(i + 1)[k]).0 + 2 * feats@.take(
            i + 1,
        )[k].1 <= len by {
            if k < i {
                assert(feats@.take(i + 1)[k] == feats@.take(i as int)[k]);
            }
        }
        i += 1;
    }
    assert(feats@.take(i as int) =~= feats@);
    Ok(())
}

/// Where each feature's region starts.
pub open spec fn feat_starts(feats: Seq<(usize, u32, i32, u32)>) -> Seq<int> {
    Seq::new(feats.len(), |i: int| feats[i].0 as int)
}

/// A feature's region: its raw cells, scaled, without the first bins that its offset counts.
pub open spec fn is_compacted_region<C, F: Fn(i64) -> C>(
    scale: F,
    zero: C,
    raw: Seq<u64>,
    feat: (usize, u32, i32, u32),
    region: Seq<C>,
) -> bool {
    exists|cells: Seq<C>|
        {
            &&& #[trigger] is_dequantised(
                scale,
                raw.subrange(feat.0 as int, feat.0 + 2 * feat.1),
                cells,
            )
            &&& region == hist_region::compacted(cells, feat.2 as int, zero)
        }
}

/// One compacted region per feature.
pub open spec fn are_compacted_regions<C, F: Fn(i64) -> C>(
    scale: F,
    zero: C,
    raw: Seq<u64>,
    feats: Seq<(usize, u32, i32, u32)>,
    regions: Seq<Seq<C>>,
) -> bool {
    &&& regions.len() == feats.len()
    &&& forall|i: int|
        0 <= i < feats.len() ==> #[trigger] regions[i].len() == 2 * feats[i].1 && is_compacted_region(
            scale,
            zero,
            raw,
            feats[i],
            regions[i],
        )
}

/// The compacted region of each feature, written at its place into zeroed cells.
pub open spec fn is_fix_compact<C, F: Fn(i64) -> C>(
    scale: F,
    zero: C,
    raw: Seq<u64>,
    feats: Seq<(usize, u32, i32, u32)>,
    out: Seq<C>,
) -> bool {
    exists|regions: Seq<Seq<C>>|
        {
            &&& #[trigger] are_compacted_regions(scale, zero, raw, feats, regions)
            &&& out == hist_region::overlaid(
                histogram::filled(raw.len() as int, zero),
                feat_starts(feats),
                regions,
                regions.len() as int,
            )
        }
}

/// Scale and compact the region of each feature. The most frequent bin is left as it was built:
/// the raw histogram holds every row.
pub fn fix_compact_kernel<C: Copy, F: Fn(i64) -> C>(
    scale: &F,
    zero: C,
    raw: &[u64],
    feats: &[(usize, u32, i32, u32)],
) -> (out: Vec<C>)
    requires
        scales_all(*scale),
        regions_fit(feats@, raw@.len()),
    ensures
        is_fix_compact(*scale, zero, raw@, feats@, out@),
{
    let mut out: Vec<C> = histogram::zeroed(raw.len(), zero);
    let ghost start = out@;
    let ghost starts = feat_starts(feats@);
    let ghost mut regions: Seq<Seq<C>> = Seq::empty();
    let len: usize = raw.len();
    let mut i: usize = 0;
    while i < feats.len()
        invariant
            i <= feats@.len(),
            scales_all(*scale),
            len == raw@.len(),
            regions_fit(feats@, raw@.len()),
            start == histogram::filled(raw@.len() as int, zero),
            starts == feat_starts(feats@),
            are_compacted_regions(*scale, zero, raw@, feats@.take(i as int), regions),
            out@.len() == len,
            out@ == hist_region::overlaid(start, starts, regions, i as int),
        decreases feats@.len() - i,
    {
        let base: usize = feats[i].0;
        let num_bin: usize = feats[i].1 as usize;
        assert(feats@[i as int].0 + 2 * feats@[i as int].1 <= len);
        let mut region: Vec<C> = dequant_leaf_hist(scale, &raw[base..base + 2 * num_bin]);
        let ghost cells = region@;
        hist_region::compact_histogram(region.as_mut_slice(), feats[i].2, zero);
        hist_region::paste(&mut out, base, region.as_slice());
        proof {
            assert(is_dequantised(*scale, raw@.subrange(base as int, base + 2 * num_bin), cells));
            assert(is_compacted_region(*scale, zero, raw@, feats@[i as int], region@));
            let held = regions;
            regions = regions.push(region@);
            hist_region::overlay_ignores_later(start, starts, held, region@, i as int);
            assert forall|k: int| 0 <= k < i + 1 implies #[trigger] regions[k].len() == 2 * feats@.take(
                i + 1,
            )[k].1 && is_compacted_region(*scale, zero, raw@, feats@.take(i + 1)[k], regions[k]) by {
                if k < i {
                    assert(regions[k] == held[k]);
                    assert(feats@.take(i + 1)[k] == feats@.take(i as int)[k]);
                }
            }
        }
        i += 1;
    }
    assert(feats@.take(i as int) =~= feats@);
    out
}

/// Scale and compact a leaf's raw histogram: each raw value is quantised to fixed-point bits, and
/// the bits are scaled back region by region. Without features the raw values are widened.
pub fn fix_compact_f64_on<V: Copy, C: Copy, W: Fn(V) -> C, Q: Fn(V) -> u64, F: Fn(i64) -> C>(
    widen: &W,
    quantise: &Q,
    scale: &F,
    zero: C,
    raw: &[V],
    feats: &[(usize, u32, i32, u32)],
) -> (r: Result<Vec<C>, ComputeError>)
    requires
        fold::maps_all(*widen),
        fold::maps_all(*quantise),
        scales_all(*scale),
    ensures
        error::fails_as(r, first_region_fault("fix_compact"@, feats@, raw@.len(), 0)),
        r matches Ok(out) ==> if feats@.len() == 0 {
            fold::is_mapped(*widen, raw@, out@)
        } else {
            exists|bits: Seq<u64>| #[trigger]
                fold::is_mapped(*quantise, raw@, bits) && is_fix_compact(*scale, zero, bits, feats@, out@)
        },
{
    if feats.len() == 0 {
        return Ok(fold::mapped(widen, raw));
    }
    check_regions("fix_compact", feats, raw.len())?;
    let bits: Vec<u64> = fold::mapped(quantise, raw);
    let out: Vec<C> = fix_compact_kernel(scale, zero, bits.as_slice(), feats);
    assert(fold::is_mapped(*quantise, raw@, bits@));
    Ok(out)
}

/// Whether the repair of feature `feat`, given as first cell, bins and most frequent bin, writes
/// cell `c`.
pub open spec fn repairs_cell(feat: (usize, u32, u32), c: int) -> bool {
    hist_region::repairs(2 * feat.1, feat.2) && (c == feat.0 + 2 * feat.2 || c == feat.0 + 2 * feat.2 + 1)
}

/// The last of the first `n` features whose repair writes cell `c`.
pub open spec fn last_repair(feats: Seq<(usize, u32, u32)>, n: int, c: int) -> Option<int>
    decreases n,
{
    if n <= 0 {
        None
    } else if repairs_cell(feats[n - 1], c) {
        Some(n - 1)
    } else {
        last_repair(feats, n - 1, c)
    }
}

/// `out` is the histogram with the most frequent bin of each feature set to the leaf's sums less
/// the feature's other bins, taken off in bin order; all bins are read as they were.
pub open spec fn is_mfb_repaired<C, S: Fn(C, C) -> C>(
    take_off: S,
    hist: Seq<C>,
    feats: Seq<(usize, u32, u32)>,
    n: int,
    sum_gradient: C,
    sum_hessian: C,
    out: Seq<C>,
) -> bool {
    &&& out.len() == hist.len()
    &&& forall|c: int|
        0 <= c < hist.len() ==> match last_repair(feats, n, c) {
            None => #[trigger] out[c] == hist[c],
            Some(i) => {
                let region = hist.subrange(feats[i].0 as int, feats[i].0 + 2 * feats[i].1);
                let side = c - (feats[i].0 + 2 * feats[i].2);
                fold::folds_to(
                    take_off,
                    if side == 0 {
                        sum_gradient
                    } else {
                        sum_hessian
                    },
                    hist_region::side_cells(region, side).remove(feats[i].2 as int),
                    out[c],
                )
            },
        }
}

/// Every feature's region lies within `len` cells.
pub open spec fn mfb_regions_fit(feats: Seq<(usize, u32, u32)>, len: nat) -> bool {
    forall|i: int| 0 <= i < feats.len() ==> (#[trigger] feats[i]).0 + 2 * feats[i].1 <= len
}

/// Repair the most frequent bin of each feature. All bins are read from `hist_in`.
pub fn fix_histogram_mfb<C: Copy, S: Fn(C, C) -> C>(
    take_off: &S,
    hist_in: &[C],
    hist_out: &mut Vec<C>,
    feats: &[(usize, u32, u32)],
    sum_gradient: C,
    sum_hessian: C,
)
    requires
        fold::is_total(*take_off),
        mfb_regions_fit(feats@, hist_in@.len()),
        old(hist_out)@ == hist_in@,
    ensures
        is_mfb_repaired(
            *take_off,
            hist_in@,
            feats@,
            feats@.len() as int,
            sum_gradient,
            sum_hessian,
            final(hist_out)@,
        ),
{
    let len: usize = hist_in.len();
    let mut i: usize = 0;
    while i < feats.len()
        invariant
            i <= feats@.len(),
            len == hist_in@.len(),
            fold::is_total(*take_off),
            mfb_regions_fit(feats@, hist_in@.len()),
            is_mfb_repaired(
                *take_off,
                hist_in@,
                feats@,
                i as int,
                sum_gradient,
                sum_hessian,
                hist_out@,
            ),
        decreases feats@.len() - i,
    {
        let base: usize = feats[i].0;
        let num_bin: usize = feats[i].1 as usize;
        let mfb: usize = feats[i].2 as usize;
        assert(feats@[i as int].0 + 2 * feats@[i as int].1 <= len);
        if mfb > 0 && mfb < num_bin {
            let g: C = hist_region::rest_of_bins(take_off, hist_in, base, num_bin, mfb, 0, sum_gradient);
            let h: C = hist_region::rest_of_bins(take_off, hist_in, base, num_bin, mfb, 1, sum_hessian);
            hist_out.set(base + 2 * mfb, g);
            hist_out.set(base + 2 * mfb + 1, h);
        }
        i += 1;
    }
}

/// The fault of the first feature, from `from` on, whose region does not fit.
pub open spec fn first_mfb_fault(feats: Seq<(usize, u32, u32)>, len: nat, from: int) -> Option<Fault>
    decreases feats.len() - from,
{
    if from >= feats.len() {
        None
    } else {
        match hist_region::region_fault("fix_histogram_mfb"@, feats[from].0, feats[from].1, len) {
            Some(fault) => Some(fault),
            None => first_mfb_fault(feats, len, from + 1),
        }
    }
}

/// The histogram with the most frequent bin of each feature repaired, where every feature's
/// region fits.
pub fn fix_histogram_mfb_on<C: Copy, S: Fn(C, C) -> C>(
    take_off: &S,
    hist: &[C],
    feats: &[(usize, u32, u32)],
    sum_gradient: C,
    sum_hessian: C,
) -> (r: Result<Vec<C>, ComputeError>)
    requires
        fold::is_total(*take_off),
    ensures
        error::fails_as(r, first_mfb_fault(feats@, hist@.len(), 0)),
        r matches Ok(out) ==> is_mfb_repaired(
            *take_off,
            hist@,
            feats@,
            feats@.len() as int,
            sum_gradient,
            sum_hessian,
            out@,
        ),
{
    let mut i: usize = 0;
    while i < feats.len()
        invariant
            i <= feats@.len(),
            first_mfb_fault(feats@, hist@.len(), 0) == first_mfb_fault(feats@, hist@.len(), i as int),
            forall|k: int| 0 <= k < i ==> (#[trigger] feats@[k]).0 + 2 * feats@[k].1 <= hist@.len(),
        decreases feats@.len() - i,
    {
        hist_region::check_region("fix_histogram_mfb", feats[i].0, feats[i].1, hist.len())?;
        i += 1;
    }
    let mut out: Vec<C> = Vec::with_capacity(hist.len());
    let mut c: usize = 0;
    while c < hist.len()
        invariant
            c <= hist@.len(),
            out@ == hist@.take(c as int),
        decreases hist@.len() - c,
    {
        out.push(hist[c]);
        c += 1;
        assert(out@ =~= hist@.take(c as int));
    }
    assert(out@ =~= hist@);
    fix_histogram_mfb(take_off, hist, &mut out, feats, sum_gradient, sum_hessian);
    Ok(out)
}

} // verus!
