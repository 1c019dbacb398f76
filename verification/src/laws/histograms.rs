//! What the histograms of leaves hold, in arithmetic that adds exactly.
use crate::kernels::data_partition;
use crate::kernels::fix_compact;
use crate::kernels::fixed_build;
use crate::kernels::fused_scan;
use crate::kernels::grouped_build;
use crate::kernels::grow_feature;
use crate::kernels::grow_feature::{BatchedSplitFeature, GrowFeature};
use crate::kernels::hist_region;
use crate::kernels::histogram;
use crate::kernels::leaf_histogram;
use crate::kernels::resident_build;
use crate::laws::sums;
use crate::stable;
use vstd::prelude::*;

verus! {

/// In the region of a feature, every cell is the sum of the leaf's rows in its bin, where the leaf's
/// sums are the sums of its rows: the even cells of the gradients, the odd cells of the hessians, the
/// most frequent bin no less than the others.
pub proof fn region_cell_is_the_sum_of_its_rows<C, V, A: Fn(C, V) -> C, S: Fn(C, C) -> C>(
    add_to: A,
    take_off: S,
    zero: C,
    f: GrowFeature,
    gradients: Seq<V>,
    hessians: Seq<V>,
    rows: Seq<u32>,
    sum_g: C,
    sum_h: C,
    region: Seq<C>,
    amount: spec_fn(C) -> int,
    weight: spec_fn(V) -> int,
    b: int,
)
    requires
        leaf_histogram::is_leaf_region(
            add_to,
            take_off,
            zero,
            f,
            rows,
            leaf_histogram::picked(gradients, rows),
            leaf_histogram::picked(hessians, rows),
            sum_g,
            sum_h,
            region,
        ),
        sums::adds(add_to, amount, weight),
        sums::takes_off(take_off, amount),
        amount(zero) == 0,
        amount(sum_g) == sums::rows_total(rows, gradients, weight),
        amount(sum_h) == sums::rows_total(rows, hessians, weight),
        forall|k: int| 0 <= k < rows.len() ==> f.bins@[#[trigger] rows[k] as int] < f.num_bin,
        0 <= f.offset <= b < f.num_bin,
    ensures
        amount(region[2 * (b - f.offset)]) == sums::rows_in_bin(rows, f.bins@, gradients, weight, b),
        amount(region[2 * (b - f.offset) + 1]) == sums::rows_in_bin(rows, f.bins@, hessians, weight, b),
{
    let bins = data_partition::gathered(f.bins@, rows);
    let grad = leaf_histogram::picked(gradients, rows);
    let hess = leaf_histogram::picked(hessians, rows);
    let start = histogram::filled(2 * f.num_bin, zero);
    let (raw, fixed) = choose|raw: Seq<C>, fixed: Seq<C>|
        {
            &&& #[trigger] histogram::is_histogram(add_to, start, bins, grad, hess, f.num_bin, raw)
            &&& #[trigger] hist_region::is_repaired(take_off, raw, f.most_freq_bin, sum_g, sum_h, fixed)
            &&& region == hist_region::compacted(fixed, f.offset as int, zero)
        };
    sums::gathered_total(rows, f.bins@, gradients, weight, b);
    sums::gathered_total(rows, f.bins@, hessians, weight, b);
    assert forall|k: int| 0 <= k < bins.len() implies #[trigger] bins[k] < f.num_bin by {
        assert(f.bins@[rows[k] as int] < f.num_bin);
    }
    sums::cells_hold_their_bins(add_to, start, bins, grad, hess, f.num_bin, raw, amount, weight, b);
    sums::cells_add_up_to_the_rows(add_to, zero, bins, grad, hess, f.num_bin, raw, amount, weight);
    sums::repaired_cells_add_up_to_the_sums(take_off, raw, f.most_freq_bin, sum_g, sum_h, fixed, amount);
    assert((2 * b) / 2 == b && (2 * b + 1) / 2 == b);
    if b == f.most_freq_bin {
        sums::other_cells_agree(raw, fixed, amount, 0, b, f.num_bin as int);
        sums::other_cells_agree(raw, fixed, amount, 1, b, f.num_bin as int);
    }
    sums::compaction_keeps_each_bin(fixed, f.offset as int, zero, 2 * b);
    sums::compaction_keeps_each_bin(fixed, f.offset as int, zero, 2 * b + 1);
}

/// Whatever the leaf's sums are, the gradient cells of a feature whose most frequent bin is repaired
/// add up to the gradient sum, and the hessian cells to the hessian sum.
pub proof fn region_cells_add_up_to_the_sums<C, V, A: Fn(C, V) -> C, S: Fn(C, C) -> C>(
    add_to: A,
    take_off: S,
    zero: C,
    f: GrowFeature,
    rows: Seq<u32>,
    grad: Seq<V>,
    hess: Seq<V>,
    sum_g: C,
    sum_h: C,
    region: Seq<C>,
    amount: spec_fn(C) -> int,
)
    requires
        leaf_histogram::is_leaf_region(add_to, take_off, zero, f, rows, grad, hess, sum_g, sum_h, region),
        sums::takes_off(take_off, amount),
        f.offset <= 0,
        0 < f.most_freq_bin < f.num_bin,
    ensures
        sums::side_total(region, amount, 0, f.num_bin as int) == amount(sum_g),
        sums::side_total(region, amount, 1, f.num_bin as int) == amount(sum_h),
{
    let bins = data_partition::gathered(f.bins@, rows);
    let start = histogram::filled(2 * f.num_bin, zero);
    let (raw, fixed) = choose|raw: Seq<C>, fixed: Seq<C>|
        {
            &&& #[trigger] histogram::is_histogram(add_to, start, bins, grad, hess, f.num_bin, raw)
            &&& #[trigger] hist_region::is_repaired(take_off, raw, f.most_freq_bin, sum_g, sum_h, fixed)
            &&& region == hist_region::compacted(fixed, f.offset as int, zero)
        };
    sums::repaired_cells_add_up_to_the_sums(take_off, raw, f.most_freq_bin, sum_g, sum_h, fixed, amount);
}

/// In the histogram of a leaf, with the features' regions one behind the other, every cell is the sum
/// of the leaf's rows in its bin: the even cells of the gradients, the odd cells of the hessians.
pub proof fn leaf_cell_is_the_sum_of_its_rows<C, V, A: Fn(C, V) -> C, S: Fn(C, C) -> C>(
    add_to: A,
    take_off: S,
    zero: C,
    features: Seq<GrowFeature>,
    gradients: Seq<V>,
    hessians: Seq<V>,
    rows: Seq<u32>,
    sum_g: C,
    sum_h: C,
    slot_off: Seq<usize>,
    hist_len: usize,
    out: Seq<C>,
    amount: spec_fn(C) -> int,
    weight: spec_fn(V) -> int,
    i: int,
    b: int,
)
    requires
        rows.len() > 0,
        0 <= i < features.len(),
        slot_off.len() == features.len(),
        forall|k: int|
            0 <= k < features.len() ==> #[trigger] slot_off[k] == grow_feature::cells_before(features, k),
        hist_len == grow_feature::cells_before(features, features.len() as int),
        leaf_histogram::is_leaf_histogram(
            add_to,
            take_off,
            zero,
            features,
            gradients,
            hessians,
            rows,
            sum_g,
            sum_h,
            slot_off,
            hist_len,
            out,
        ),
        sums::adds(add_to, amount, weight),
        sums::takes_off(take_off, amount),
        amount(zero) == 0,
        amount(sum_g) == sums::rows_total(rows, gradients, weight),
        amount(sum_h) == sums::rows_total(rows, hessians, weight),
        forall|k: int| 0 <= k < rows.len() ==> features[i].bins@[#[trigger] rows[k] as int] < features[i].num_bin,
        0 <= features[i].offset <= b < features[i].num_bin,
    ensures
        amount(out[slot_off[i] + 2 * (b - features[i].offset)]) == sums::rows_in_bin(
            rows,
            features[i].bins@,
            gradients,
            weight,
            b,
        ),
        amount(out[slot_off[i] + 2 * (b - features[i].offset) + 1]) == sums::rows_in_bin(
            rows,
            features[i].bins@,
            hessians,
            weight,
            b,
        ),
{
    let f = features[i];
    leaf_histogram::leaf_regions_stand_apart(
        add_to,
        take_off,
        zero,
        features,
        gradients,
        hessians,
        rows,
        sum_g,
        sum_h,
        slot_off,
        hist_len,
        out,
        i,
    );
    let region = out.subrange(slot_off[i] as int, slot_off[i] + 2 * f.num_bin);
    region_cell_is_the_sum_of_its_rows(
        add_to,
        take_off,
        zero,
        f,
        gradients,
        hessians,
        rows,
        sum_g,
        sum_h,
        region,
        amount,
        weight,
        b,
    );
    assert(region[2 * (b - f.offset)] == out[slot_off[i] + 2 * (b - f.offset)]);
    assert(region[2 * (b - f.offset) + 1] == out[slot_off[i] + 2 * (b - f.offset) + 1]);
}

/// A leaf without rows has a histogram of zeros.
pub proof fn empty_leaf_has_zeros<C, V, A: Fn(C, V) -> C, S: Fn(C, C) -> C>(
    add_to: A,
    take_off: S,
    zero: C,
    features: Seq<GrowFeature>,
    gradients: Seq<V>,
    hessians: Seq<V>,
    sum_g: C,
    sum_h: C,
    slot_off: Seq<usize>,
    hist_len: usize,
    out: Seq<C>,
    c: int,
)
    requires
        leaf_histogram::is_leaf_histogram(
            add_to,
            take_off,
            zero,
            features,
            gradients,
            hessians,
            Seq::empty(),
            sum_g,
            sum_h,
            slot_off,
            hist_len,
            out,
        ),
        0 <= c < hist_len,
    ensures
        out.len() == hist_len,
        out[c] == zero,
{
}

/// The column of a feature, where the columns lie one behind the other.
pub open spec fn feature_column(bins: Seq<u32>, num_data: int, f: int) -> Seq<u32> {
    bins.subrange(f * num_data, f * num_data + num_data)
}

proof fn column_total<V>(
    bins: Seq<u32>,
    num_data: int,
    f: int,
    rows: Seq<u32>,
    values: Seq<V>,
    weight: spec_fn(V) -> int,
    b: int,
)
    requires
        0 <= f * num_data,
        f * num_data + num_data <= bins.len(),
        forall|k: int| 0 <= k < rows.len() ==> #[trigger] rows[k] < num_data,
    ensures
        sums::total_in_bin(
            fixed_build::column_bins(bins, num_data, f, rows),
            leaf_histogram::picked(values, rows),
            weight,
            b,
        ) == sums::rows_in_bin(rows, feature_column(bins, num_data, f), values, weight, b),
    decreases rows.len(),
{
    if rows.len() > 0 {
        let r0 = rows.drop_last();
        assert forall|k: int| 0 <= k < r0.len() implies #[trigger] r0[k] < num_data by {
            assert(rows[k] < num_data);
        }
        column_total(bins, num_data, f, r0, values, weight, b);
        let own = fixed_build::column_bins(bins, num_data, f, rows);
        assert(own.drop_last() =~= fixed_build::column_bins(bins, num_data, f, r0));
        assert(leaf_histogram::picked(values, rows).drop_last() =~= leaf_histogram::picked(values, r0));
        assert(rows[rows.len() - 1] < num_data);
        assert(feature_column(bins, num_data, f)[rows.last() as int] == bins[f * num_data + rows.last()]);
    }
}

/// In the histogram of a scan pass, where the regions stand one behind the other, every cell is the
/// sum of the leaf's rows in its bin, the bin being read from the feature's own column.
pub proof fn scan_cell_is_the_sum_of_its_rows<C, V, A: Fn(C, V) -> C>(
    add_to: A,
    zero: C,
    bins: Seq<u32>,
    num_data: int,
    rows: Seq<u32>,
    gradients: Seq<V>,
    hessians: Seq<V>,
    feats: Seq<BatchedSplitFeature>,
    slot_len: usize,
    out: Seq<C>,
    amount: spec_fn(C) -> int,
    weight: spec_fn(V) -> int,
    i: int,
    b: int,
)
    requires
        fused_scan::is_scan_histogram(
            add_to,
            zero,
            bins,
            num_data,
            rows,
            leaf_histogram::picked(gradients, rows),
            leaf_histogram::picked(hessians, rows),
            feats,
            slot_len,
            out,
        ),
        fused_scan::scan_regions_fit(feats, slot_len as nat),
        forall|k: int, j: int|
            0 <= k < j < feats.len() ==> (#[trigger] feats[k]).slot_off + 2 * feats[k].num_bin <= (
            #[trigger] feats[j]).slot_off,
        sums::adds(add_to, amount, weight),
        amount(zero) == 0,
        0 <= i < feats.len(),
        0 <= i * num_data,
        i * num_data + num_data <= bins.len(),
        forall|k: int| 0 <= k < rows.len() ==> #[trigger] rows[k] < num_data,
        0 <= feats[i].offset <= b < feats[i].num_bin,
    ensures
        amount(out[feats[i].slot_off + 2 * (b - feats[i].offset)]) == sums::rows_in_bin(
            rows,
            feature_column(bins, num_data, i),
            gradients,
            weight,
            b,
        ),
        amount(out[feats[i].slot_off + 2 * (b - feats[i].offset) + 1]) == sums::rows_in_bin(
            rows,
            feature_column(bins, num_data, i),
            hessians,
            weight,
            b,
        ),
{
    let grad = leaf_histogram::picked(gradients, rows);
    let hess = leaf_histogram::picked(hessians, rows);
    let f = feats[i];
    let own = fixed_build::column_bins(bins, num_data, i, rows);
    let start = histogram::filled(slot_len as int, zero);
    let starts = fused_scan::scan_starts(feats);
    let regions = choose|regions: Seq<Seq<C>>|
        {
            &&& #[trigger] fused_scan::are_scan_regions(
                add_to,
                zero,
                bins,
                num_data,
                rows,
                grad,
                hess,
                feats,
                regions,
            )
            &&& regions.len() == feats.len()
            &&& out == hist_region::overlaid(start, starts, regions, regions.len() as int)
        };
    assert forall|k: int, j: int| 0 <= k < j < regions.len() implies #[trigger] starts[k] + regions[k].len()
        <= #[trigger] starts[j] by {
        assert(regions[k].len() == 2 * feats[k].num_bin);
        assert(feats[k].slot_off + 2 * feats[k].num_bin <= feats[j].slot_off);
    }
    assert forall|k: int| 0 <= k < regions.len() implies 0 <= #[trigger] starts[k] && starts[k] + regions[k].len()
        <= start.len() by {
        assert(regions[k].len() == 2 * feats[k].num_bin);
        assert(feats[k].slot_off + 2 * feats[k].num_bin <= slot_len);
    }
    hist_region::disjoint_parts_stay(start, starts, regions, regions.len() as int);
    let region = regions[i];
    assert(region.len() == 2 * f.num_bin);
    assert(starts[i] + region.len() <= start.len());
    let raw = choose|raw: Seq<C>| #[trigger]
        histogram::is_histogram(add_to, histogram::filled(2 * f.num_bin, zero), own, grad, hess, f.num_bin, raw)
            && region == hist_region::compacted(raw, f.offset as int, zero);
    sums::cells_hold_their_bins(
        add_to,
        histogram::filled(2 * f.num_bin, zero),
        own,
        grad,
        hess,
        f.num_bin,
        raw,
        amount,
        weight,
        b,
    );
    column_total(bins, num_data, i, rows, gradients, weight, b);
    column_total(bins, num_data, i, rows, hessians, weight, b);
    sums::compaction_keeps_each_bin(raw, f.offset as int, zero, 2 * b);
    sums::compaction_keeps_each_bin(raw, f.offset as int, zero, 2 * b + 1);
    let at = out.subrange(starts[i], starts[i] + region.len());
    assert(at == region);
    assert(at[2 * (b - f.offset)] == out[f.slot_off + 2 * (b - f.offset)]);
    assert(at[2 * (b - f.offset) + 1] == out[f.slot_off + 2 * (b - f.offset) + 1]);
}

/// The integer that a fixed-point value is.
pub open spec fn fixed_value() -> spec_fn(i64) -> int {
    |v: i64| v as int
}

/// The fixed-point sum of a cell is the sum of the gradients in the bin for an even cell, and of the
/// hessians for an odd one.
pub proof fn fixed_cell_is_its_bin(binned: Seq<u32>, grad: Seq<i64>, hess: Seq<i64>, b: int)
    requires
        binned.len() == grad.len(),
        binned.len() == hess.len(),
    ensures
        fixed_build::cell_sum(binned, grad, hess, 2 * b, binned.len() as int) == sums::total_in_bin(
            binned,
            grad,
            fixed_value(),
            b,
        ),
        fixed_build::cell_sum(binned, grad, hess, 2 * b + 1, binned.len() as int) == sums::total_in_bin(
            binned,
            hess,
            fixed_value(),
            b,
        ),
    decreases binned.len(),
{
    if binned.len() > 0 {
        let n = binned.len() - 1;
        fixed_cell_is_its_bin(binned.drop_last(), grad.drop_last(), hess.drop_last(), b);
        assert((2 * b) % 2 == 0 && (2 * b) / 2 == b);
        assert((2 * b + 1) % 2 == 1 && (2 * b + 1) / 2 == b);
        prefix_cell_sum(binned, grad, hess, 2 * b, n);
        prefix_cell_sum(binned, grad, hess, 2 * b + 1, n);
    }
}

proof fn prefix_cell_sum(binned: Seq<u32>, grad: Seq<i64>, hess: Seq<i64>, c: int, n: int)
    requires
        0 <= n < binned.len(),
        binned.len() == grad.len(),
        binned.len() == hess.len(),
    ensures
        fixed_build::cell_sum(binned.drop_last(), grad.drop_last(), hess.drop_last(), c, n)
            == fixed_build::cell_sum(binned, grad, hess, c, n),
    decreases n,
{
    if n > 0 {
        prefix_cell_sum(binned, grad, hess, c, n - 1);
    }
}

/// A fixed-point build adds to the cells of each bin the values of the rows in the bin, modulo 2^64;
/// the bin of a row is read from the feature's own column.
pub proof fn fixed_build_adds_each_bin(
    bins: Seq<u32>,
    num_data: int,
    rows: Seq<u32>,
    grad: Seq<i64>,
    hess: Seq<i64>,
    slot_off: Seq<u32>,
    features: int,
    before: Seq<u64>,
    after: Seq<u64>,
    row_bins: Seq<u32>,
    f: int,
    b: int,
)
    requires
        fixed_build::is_fixed_build(bins, num_data, rows, grad, hess, slot_off, features, before, after),
        rows.len() == grad.len(),
        rows.len() == hess.len(),
        0 <= f < features,
        0 <= b,
        slot_off[f] + 2 * b + 1 < slot_off[f + 1] <= before.len(),
        row_bins.len() == rows.len(),
        forall|k: int| 0 <= k < rows.len() ==> #[trigger] row_bins[k] == bins[f * num_data + rows[k]],
    ensures
        after.len() == before.len(),
        (after[slot_off[f] + 2 * b] - before[slot_off[f] + 2 * b] - sums::total_in_bin(
            row_bins,
            grad,
            fixed_value(),
            b,
        )) % 0x1_0000_0000_0000_0000 == 0,
        (after[slot_off[f] + 2 * b + 1] - before[slot_off[f] + 2 * b + 1] - sums::total_in_bin(
            row_bins,
            hess,
            fixed_value(),
            b,
        )) % 0x1_0000_0000_0000_0000 == 0,
        forall|c: int|
            0 <= c < before.len() && (c < slot_off[0] || c >= slot_off[features]) ==> #[trigger] after[c]
                == before[c],
{
    assert(row_bins =~= fixed_build::column_bins(bins, num_data, f, rows));
    fixed_cell_is_its_bin(row_bins, grad, hess, b);
    let start = slot_off[f] as int;
    let g = before[start + 2 * b] + sums::total_in_bin(row_bins, grad, fixed_value(), b);
    let h = before[start + 2 * b + 1] + sums::total_in_bin(row_bins, hess, fixed_value(), b);
    assert(after[start + 2 * b] == fixed_build::wrapped(g));
    assert(after[start + 2 * b + 1] == fixed_build::wrapped(h));
    wrapping_keeps_the_remainder(g);
    wrapping_keeps_the_remainder(h);
}

/// Wrapping a number changes it by a multiple of 2^64.
pub proof fn wrapping_keeps_the_remainder(v: int)
    ensures
        (fixed_build::wrapped(v) - v) % 0x1_0000_0000_0000_0000 == 0,
        0 <= v < 0x1_0000_0000_0000_0000 ==> fixed_build::wrapped(v) == v,
{
    let m: int = 0x1_0000_0000_0000_0000;
    let q = v / m;
    assert(v == m * q + v % m) by {
        vstd::arithmetic::div_mod::lemma_fundamental_div_mod(v, m);
    }
    assert(fixed_build::wrapped(v) - v == (-q) * m) by (nonlinear_arith)
        requires
            v == m * q + v % m,
            fixed_build::wrapped(v) == v % m,
    ;
    vstd::arithmetic::div_mod::lemma_mod_multiples_basic(-q, m);
}

/// The signed reading of a cell is the number below 2^63 that differs from it by a multiple of 2^64.
pub proof fn signed_reading_keeps_the_remainder(bits: u64)
    ensures
        fix_compact::spec_signed_bits(bits) == bits || fix_compact::spec_signed_bits(bits) + 0x1_0000_0000_0000_0000
            == bits,
        -0x8000_0000_0000_0000 <= fix_compact::spec_signed_bits(bits) < 0x8000_0000_0000_0000,
{
}

/// A guarded build holds in the cells of each bin the exact sums of the rows in the bin, read as signed
/// numbers.
pub proof fn exact_cells_are_their_bins(
    bins: Seq<u32>,
    num_data: int,
    rows: Seq<u32>,
    grad: Seq<i64>,
    hess: Seq<i64>,
    slot_off: Seq<u32>,
    features: int,
    raw: Seq<u64>,
    row_bins: Seq<u32>,
    f: int,
    b: int,
)
    requires
        resident_build::cells_are_exact(bins, num_data, rows, grad, hess, slot_off, features, raw),
        rows.len() == grad.len(),
        rows.len() == hess.len(),
        0 <= f < features,
        0 <= b,
        slot_off[f] + 2 * b + 1 < slot_off[f + 1] <= raw.len(),
        row_bins.len() == rows.len(),
        forall|k: int| 0 <= k < rows.len() ==> #[trigger] row_bins[k] == bins[f * num_data + rows[k]],
    ensures
        fix_compact::spec_signed_bits(raw[slot_off[f] + 2 * b]) == sums::total_in_bin(
            row_bins,
            grad,
            fixed_value(),
            b,
        ),
        fix_compact::spec_signed_bits(raw[slot_off[f] + 2 * b + 1]) == sums::total_in_bin(
            row_bins,
            hess,
            fixed_value(),
            b,
        ),
{
    assert(row_bins =~= fixed_build::column_bins(bins, num_data, f, rows));
    fixed_cell_is_its_bin(row_bins, grad, hess, b);
    let start = slot_off[f] as int;
    assert(fix_compact::spec_signed_bits(raw[start + 2 * b]) == fixed_build::cell_sum(
        row_bins,
        grad,
        hess,
        2 * b,
        rows.len() as int,
    ));
    assert(fix_compact::spec_signed_bits(raw[start + 2 * b + 1]) == fixed_build::cell_sum(
        row_bins,
        grad,
        hess,
        2 * b + 1,
        rows.len() as int,
    ));
}

/// Where the regions stand one behind the other, a compacted cell is the scaled signed reading of the
/// raw cell of its own bin, which the offset takes to its place.
pub proof fn compacted_cell_is_the_scaled_raw_cell<C, F: Fn(i64) -> C>(
    scale: F,
    zero: C,
    raw: Seq<u64>,
    feats: Seq<(usize, u32, i32, u32)>,
    out: Seq<C>,
    i: int,
    c: int,
)
    requires
        fix_compact::is_fix_compact(scale, zero, raw, feats, out),
        fix_compact::regions_fit(feats, raw.len()),
        forall|k: int, j: int|
            0 <= k < j < feats.len() ==> (#[trigger] feats[k]).0 + 2 * feats[k].1 <= (#[trigger] feats[j]).0,
        0 <= i < feats.len(),
        0 <= feats[i].2,
        2 * feats[i].2 <= c < 2 * feats[i].1,
    ensures
        out.len() == raw.len(),
        call_ensures(
            scale,
            (fix_compact::spec_signed_bits(raw[feats[i].0 + c]),),
            out[feats[i].0 + c - 2 * feats[i].2],
        ),
{
    let start = histogram::filled(raw.len() as int, zero);
    let starts = fix_compact::feat_starts(feats);
    let regions = choose|regions: Seq<Seq<C>>|
        {
            &&& #[trigger] fix_compact::are_compacted_regions(scale, zero, raw, feats, regions)
            &&& out == hist_region::overlaid(start, starts, regions, regions.len() as int)
        };
    assert forall|k: int, j: int| 0 <= k < j < regions.len() implies #[trigger] starts[k] + regions[k].len()
        <= #[trigger] starts[j] by {
        assert(regions[k].len() == 2 * feats[k].1);
        assert(feats[k].0 + 2 * feats[k].1 <= feats[j].0);
    }
    assert forall|k: int| 0 <= k < regions.len() implies 0 <= #[trigger] starts[k] && starts[k] + regions[k].len()
        <= start.len() by {
        assert(regions[k].len() == 2 * feats[k].1);
        assert(feats[k].0 + 2 * feats[k].1 <= raw.len());
    }
    hist_region::disjoint_parts_stay(start, starts, regions, regions.len() as int);
    let feat = feats[i];
    let region = regions[i];
    assert(region.len() == 2 * feat.1);
    assert(starts[i] + region.len() <= start.len());
    let own = raw.subrange(feat.0 as int, feat.0 + 2 * feat.1);
    let cells = choose|cells: Seq<C>|
        {
            &&& #[trigger] fix_compact::is_dequantised(scale, own, cells)
            &&& region == hist_region::compacted(cells, feat.2 as int, zero)
        };
    sums::compaction_keeps_each_bin(cells, feat.2 as int, zero, c);
    assert(own[c] == raw[feat.0 + c]);
    assert(call_ensures(scale, (fix_compact::spec_signed_bits(own[c]),), cells[c]));
    let at = out.subrange(starts[i], starts[i] + region.len());
    assert(at == region);
    assert(at[c - 2 * feat.2] == out[feat.0 + c - 2 * feat.2]);
    assert(region[c - 2 * feat.2] == cells[c]);
}

/// The sum of one side of the bins of a region that starts at a cell.
pub open spec fn region_total<C>(cells: Seq<C>, at: int, amount: spec_fn(C) -> int, side: int, upto: int) -> int
    decreases upto,
{
    if upto <= 0 {
        0
    } else {
        region_total(cells, at, amount, side, upto - 1) + amount(cells[at + 2 * (upto - 1) + side])
    }
}

proof fn region_total_is_side_total<C>(
    cells: Seq<C>,
    at: int,
    len: int,
    amount: spec_fn(C) -> int,
    side: int,
    upto: int,
)
    requires
        0 <= at,
        at + len <= cells.len(),
        2 * upto <= len,
        0 <= side < 2,
    ensures
        region_total(cells, at, amount, side, upto) == sums::side_total(
            cells.subrange(at, at + len),
            amount,
            side,
            upto,
        ),
    decreases upto,
{
    if upto > 0 {
        region_total_is_side_total(cells, at, len, amount, side, upto - 1);
    }
}

proof fn repair_of_region(feats: Seq<(usize, u32, u32)>, n: int, i: int, c: int)
    requires
        0 <= i < n <= feats.len(),
        forall|k: int, j: int|
            0 <= k < j < feats.len() ==> (#[trigger] feats[k]).0 + 2 * feats[k].1 <= (#[trigger] feats[j]).0,
        feats[i].0 <= c < feats[i].0 + 2 * feats[i].1,
    ensures
        fix_compact::last_repair(feats, n, c) == (if fix_compact::repairs_cell(feats[i], c) {
            Some(i)
        } else {
            None
        }),
    decreases n,
{
    if n - 1 > i {
        assert(feats[i].0 + 2 * feats[i].1 <= feats[n - 1].0);
        repair_of_region(feats, n - 1, i, c);
    } else {
        no_earlier_repair(feats, i, i, c);
    }
}

proof fn no_earlier_repair(feats: Seq<(usize, u32, u32)>, n: int, i: int, c: int)
    requires
        0 <= n <= i < feats.len(),
        forall|k: int, j: int|
            0 <= k < j < feats.len() ==> (#[trigger] feats[k]).0 + 2 * feats[k].1 <= (#[trigger] feats[j]).0,
        feats[i].0 <= c,
    ensures
        fix_compact::last_repair(feats, n, c) is None,
    decreases n,
{
    if n > 0 {
        assert(feats[n - 1].0 + 2 * feats[n - 1].1 <= feats[i].0);
        no_earlier_repair(feats, n - 1, i, c);
    }
}

/// Where the regions stand one behind the other, a repair of the most frequent bins makes the gradient
/// cells of each repaired region add up to the gradient sum and the hessian cells to the hessian sum.
/// Every other bin keeps its cells.
pub proof fn repaired_regions_add_up_to_the_sums<C, S: Fn(C, C) -> C>(
    take_off: S,
    hist: Seq<C>,
    feats: Seq<(usize, u32, u32)>,
    sum_gradient: C,
    sum_hessian: C,
    out: Seq<C>,
    amount: spec_fn(C) -> int,
    i: int,
)
    requires
        fix_compact::is_mfb_repaired(
            take_off,
            hist,
            feats,
            feats.len() as int,
            sum_gradient,
            sum_hessian,
            out,
        ),
        fix_compact::mfb_regions_fit(feats, hist.len()),
        forall|k: int, j: int|
            0 <= k < j < feats.len() ==> (#[trigger] feats[k]).0 + 2 * feats[k].1 <= (#[trigger] feats[j]).0,
        sums::takes_off(take_off, amount),
        0 <= i < feats.len(),
    ensures
        out.len() == hist.len(),
        0 < feats[i].2 < feats[i].1 ==> region_total(out, feats[i].0 as int, amount, 0, feats[i].1 as int) == amount(
            sum_gradient,
        ),
        0 < feats[i].2 < feats[i].1 ==> region_total(out, feats[i].0 as int, amount, 1, feats[i].1 as int) == amount(
            sum_hessian,
        ),
        forall|c: int|
            feats[i].0 <= c < feats[i].0 + 2 * feats[i].1 && (c - feats[i].0) / 2 != feats[i].2 ==> #[trigger] out[c]
                == hist[c],
        feats[i].2 == 0 ==> forall|c: int|
            feats[i].0 <= c < feats[i].0 + 2 * feats[i].1 ==> #[trigger] out[c] == hist[c],
{
    let feat = feats[i];
    let at = feat.0 as int;
    let n = feat.1 as int;
    let b = feat.2 as int;
    assert(feat.0 + 2 * feat.1 <= hist.len());
    assert forall|c: int| at <= c < at + 2 * n && !fix_compact::repairs_cell(feat, c) implies #[trigger] out[c]
        == hist[c] by {
        repair_of_region(feats, feats.len() as int, i, c);
    }
    if 0 < b < n {
        let old_region = hist.subrange(at, at + 2 * n);
        let new_region = out.subrange(at, at + 2 * n);
        repair_of_region(feats, feats.len() as int, i, at + 2 * b);
        repair_of_region(feats, feats.len() as int, i, at + 2 * b + 1);
        assert(out[at + 2 * b] == new_region[2 * b]);
        assert(out[at + 2 * b + 1] == new_region[2 * b + 1]);
        assert forall|c: int| 0 <= c < old_region.len() && c / 2 != b implies #[trigger] new_region[c]
            == old_region[c] by {
            assert(out[at + c] == hist[at + c]);
        }
        assert(hist_region::is_repaired(take_off, old_region, feat.2, sum_gradient, sum_hessian, new_region));
        sums::repaired_cells_add_up_to_the_sums(
            take_off,
            old_region,
            feat.2,
            sum_gradient,
            sum_hessian,
            new_region,
            amount,
        );
        region_total_is_side_total(out, at, 2 * n, amount, 0, n);
        region_total_is_side_total(out, at, 2 * n, amount, 1, n);
    }
}

/// What the first groups hold of a bin.
pub open spec fn groups_in_bin<V>(
    binned: Seq<u32>,
    values: Seq<V>,
    weight: spec_fn(V) -> int,
    b: int,
    groups: int,
    upto: int,
) -> int
    decreases upto,
{
    if upto <= 0 {
        0
    } else {
        let marks = grouped_build::group_marks(binned.len() as int, upto - 1, groups);
        groups_in_bin(binned, values, weight, b, groups, upto - 1) + sums::total_in_bin(
            stable::chosen(binned, marks, true),
            stable::chosen(values, marks, true),
            weight,
            b,
        )
    }
}

proof fn group_gets_the_last<V>(
    binned: Seq<u32>,
    values: Seq<V>,
    weight: spec_fn(V) -> int,
    b: int,
    groups: int,
    upto: int,
)
    requires
        binned.len() == values.len(),
        values.len() > 0,
        0 <= upto <= groups,
    ensures
        groups_in_bin(binned, values, weight, b, groups, upto) == groups_in_bin(
            binned.drop_last(),
            values.drop_last(),
            weight,
            b,
            groups,
            upto,
        ) + (if 0 <= fixed_build::group_of(values.len() - 1, groups) < upto && binned.last() == b {
            weight(values.last())
        } else {
            0
        }),
    decreases upto,
{
    if upto > 0 {
        group_gets_the_last(binned, values, weight, b, groups, upto - 1);
        let n = values.len() as int;
        let marks = grouped_build::group_marks(n, upto - 1, groups);
        assert(marks.drop_last() =~= grouped_build::group_marks(n - 1, upto - 1, groups));
        let kept = stable::chosen(binned.drop_last(), marks.drop_last(), true);
        let held = stable::chosen(values.drop_last(), marks.drop_last(), true);
        stable::chosen_len(binned.drop_last(), marks.drop_last(), true);
        stable::chosen_len(values.drop_last(), marks.drop_last(), true);
        assert(kept.push(binned.last()).drop_last() =~= kept);
        assert(held.push(values.last()).drop_last() =~= held);
    }
}

proof fn groups_share_the_rows<V>(
    binned: Seq<u32>,
    values: Seq<V>,
    weight: spec_fn(V) -> int,
    b: int,
    groups: int,
)
    requires
        binned.len() == values.len(),
        0 < groups,
    ensures
        groups_in_bin(binned, values, weight, b, groups, groups) == sums::total_in_bin(binned, values, weight, b),
    decreases values.len(),
{
    if values.len() > 0 {
        groups_share_the_rows(binned.drop_last(), values.drop_last(), weight, b, groups);
        group_gets_the_last(binned, values, weight, b, groups, groups);
        let k = values.len() - 1;
        assert(0 <= fixed_build::group_of(k, groups) < groups) by (nonlinear_arith)
            requires
                0 < groups,
                fixed_build::group_of(k, groups) == (k / fixed_build::GROUP_ROWS as int) % groups,
        ;
    } else {
        no_rows_in_groups(binned, values, weight, b, groups, groups);
    }
}

proof fn no_rows_in_groups<V>(
    binned: Seq<u32>,
    values: Seq<V>,
    weight: spec_fn(V) -> int,
    b: int,
    groups: int,
    upto: int,
)
    requires
        values.len() == 0,
    ensures
        groups_in_bin(binned, values, weight, b, groups, upto) == 0,
    decreases upto,
{
    if upto > 0 {
        no_rows_in_groups(binned, values, weight, b, groups, upto - 1);
    }
}

proof fn merged_cells_are_the_groups<C, V, A: Fn(C, V) -> C>(
    add_to: A,
    zero: C,
    binned: Seq<u32>,
    grad: Seq<V>,
    hess: Seq<V>,
    num_bin: u32,
    groups: int,
    subs: Seq<Seq<C>>,
    amount: spec_fn(C) -> int,
    weight: spec_fn(V) -> int,
    b: int,
    upto: int,
)
    requires
        binned.len() == grad.len(),
        binned.len() == hess.len(),
        subs.len() == groups,
        0 <= upto <= groups,
        0 <= b < num_bin,
        sums::adds(add_to, amount, weight),
        amount(zero) == 0,
        forall|y: int|
            0 <= y < groups ==> grouped_build::is_group_histogram(
                add_to,
                zero,
                binned,
                grad,
                hess,
                num_bin,
                y,
                groups,
                #[trigger] subs[y],
            ),
    ensures
        sums::total(grouped_build::cell_of_each(subs, upto, 2 * b), amount) == groups_in_bin(
            binned,
            grad,
            weight,
            b,
            groups,
            upto,
        ),
        sums::total(grouped_build::cell_of_each(subs, upto, 2 * b + 1), amount) == groups_in_bin(
            binned,
            hess,
            weight,
            b,
            groups,
            upto,
        ),
    decreases upto,
{
    if upto > 0 {
        merged_cells_are_the_groups(
            add_to,
            zero,
            binned,
            grad,
            hess,
            num_bin,
            groups,
            subs,
            amount,
            weight,
            b,
            upto - 1,
        );
        let y = upto - 1;
        let marks = grouped_build::group_marks(binned.len() as int, y, groups);
        stable::chosen_len(binned, marks, true);
        stable::chosen_len(grad, marks, true);
        stable::chosen_len(hess, marks, true);
        assert(grouped_build::is_group_histogram(add_to, zero, binned, grad, hess, num_bin, y, groups, subs[y]));
        sums::cells_hold_their_bins(
            add_to,
            histogram::filled(2 * num_bin, zero),
            stable::chosen(binned, marks, true),
            stable::chosen(grad, marks, true),
            stable::chosen(hess, marks, true),
            num_bin,
            subs[y],
            amount,
            weight,
            b,
        );
        let g = grouped_build::cell_of_each(subs, upto, 2 * b);
        let h = grouped_build::cell_of_each(subs, upto, 2 * b + 1);
        assert(g.drop_last() =~= grouped_build::cell_of_each(subs, upto - 1, 2 * b));
        assert(h.drop_last() =~= grouped_build::cell_of_each(subs, upto - 1, 2 * b + 1));
    }
}

/// However many groups the rows are dealt to, a merged build adds to the cells of each bin the values
/// of all rows in the bin, as a build row by row does.
pub proof fn grouped_cells_hold_all_rows<C, V, A: Fn(C, V) -> C, M: Fn(C, C) -> C>(
    add_to: A,
    merge: M,
    zero: C,
    binned: Seq<u32>,
    grad: Seq<V>,
    hess: Seq<V>,
    num_bin: u32,
    groups: int,
    before: Seq<C>,
    after: Seq<C>,
    amount: spec_fn(C) -> int,
    weight: spec_fn(V) -> int,
    b: int,
)
    requires
        grouped_build::is_group_build(add_to, merge, zero, binned, grad, hess, num_bin, groups, before, after),
        sums::adds(add_to, amount, weight),
        sums::adds(merge, amount, amount),
        amount(zero) == 0,
        binned.len() == grad.len(),
        binned.len() == hess.len(),
        0 < groups,
        0 <= b < num_bin,
        2 * num_bin <= before.len(),
    ensures
        after.len() == before.len(),
        amount(after[2 * b]) == amount(before[2 * b]) + sums::total_in_bin(binned, grad, weight, b),
        amount(after[2 * b + 1]) == amount(before[2 * b + 1]) + sums::total_in_bin(binned, hess, weight, b),
{
    let subs = choose|subs: Seq<Seq<C>>|
        {
            &&& #[trigger] grouped_build::is_merged(merge, before, subs, groups, after)
            &&& subs.len() == groups
            &&& forall|y: int|
                0 <= y < groups ==> grouped_build::is_group_histogram(
                    add_to,
                    zero,
                    binned,
                    grad,
                    hess,
                    num_bin,
                    y,
                    groups,
                    #[trigger] subs[y],
                )
        };
    merged_cells_are_the_groups(
        add_to,
        zero,
        binned,
        grad,
        hess,
        num_bin,
        groups,
        subs,
        amount,
        weight,
        b,
        groups,
    );
    groups_share_the_rows(binned, grad, weight, b, groups);
    groups_share_the_rows(binned, hess, weight, b, groups);
    sums::fold_adds_the_total(
        merge,
        before[2 * b],
        grouped_build::cell_of_each(subs, groups, 2 * b),
        after[2 * b],
        amount,
        amount,
    );
    sums::fold_adds_the_total(
        merge,
        before[2 * b + 1],
        grouped_build::cell_of_each(subs, groups, 2 * b + 1),
        after[2 * b + 1],
        amount,
        amount,
    );
}

/// A build row by row adds to the cells of each bin the values of the rows in the bin, which is read from
/// the feature's own column.
pub proof fn row_build_adds_each_bin<C, V, A: Fn(C, V) -> C>(
    add_to: A,
    bins: Seq<u32>,
    num_data: int,
    rows: Seq<u32>,
    grad: Seq<V>,
    hess: Seq<V>,
    bounds: Seq<u32>,
    features: int,
    before: Seq<C>,
    after: Seq<C>,
    row_bins: Seq<u32>,
    amount: spec_fn(C) -> int,
    weight: spec_fn(V) -> int,
    f: int,
    b: int,
)
    requires
        grouped_build::is_row_build(
            add_to,
            bins,
            num_data,
            rows,
            grad,
            hess,
            bounds,
            features,
            before,
            after,
        ),
        sums::adds(add_to, amount, weight),
        rows.len() == grad.len(),
        rows.len() == hess.len(),
        0 <= f < features,
        0 <= b,
        bounds[f] + 2 * b + 1 < bounds[f + 1] <= before.len(),
        row_bins.len() == rows.len(),
        forall|k: int| 0 <= k < rows.len() ==> #[trigger] row_bins[k] == bins[f * num_data + rows[k]],
    ensures
        after.len() == before.len(),
        amount(after[bounds[f] + 2 * b]) == amount(before[bounds[f] + 2 * b]) + sums::total_in_bin(
            row_bins,
            grad,
            weight,
            b,
        ),
        amount(after[bounds[f] + 2 * b + 1]) == amount(before[bounds[f] + 2 * b + 1]) + sums::total_in_bin(
            row_bins,
            hess,
            weight,
            b,
        ),
        forall|c: int|
            0 <= c < before.len() && (c < bounds[0] || c >= bounds[features]) ==> #[trigger] after[c] == before[c],
{
    assert(row_bins =~= fixed_build::column_bins(bins, num_data, f, rows));
    let old_cells = grouped_build::feature_cells(before, bounds, f);
    let new_cells = grouped_build::feature_cells(after, bounds, f);
    let num_bin = grouped_build::feature_bin_count(bounds, f);
    assert(old_cells.len() == bounds[f + 1] - bounds[f]);
    assert(2 * num_bin <= old_cells.len());
    assert(b < num_bin);
    sums::cells_hold_their_bins(
        add_to,
        old_cells,
        row_bins,
        grad,
        hess,
        num_bin,
        new_cells,
        amount,
        weight,
        b,
    );
    assert(old_cells[2 * b] == before[bounds[f] + 2 * b]);
    assert(old_cells[2 * b + 1] == before[bounds[f] + 2 * b + 1]);
    assert(new_cells[2 * b] == after[bounds[f] + 2 * b]);
    assert(new_cells[2 * b + 1] == after[bounds[f] + 2 * b + 1]);
}

/// A build over groups of rows adds to the cells of each bin the same values, however many groups there
/// are.
pub proof fn grouped_build_adds_each_bin<C, V, A: Fn(C, V) -> C, M: Fn(C, C) -> C>(
    add_to: A,
    merge: M,
    zero: C,
    groups: int,
    bins: Seq<u32>,
    num_data: int,
    rows: Seq<u32>,
    grad: Seq<V>,
    hess: Seq<V>,
    bounds: Seq<u32>,
    features: int,
    before: Seq<C>,
    after: Seq<C>,
    row_bins: Seq<u32>,
    amount: spec_fn(C) -> int,
    weight: spec_fn(V) -> int,
    f: int,
    b: int,
)
    requires
        grouped_build::is_grouped_build(
            add_to,
            merge,
            zero,
            bins,
            num_data,
            rows,
            grad,
            hess,
            bounds,
            features,
            groups,
            before,
            after,
        ),
        sums::adds(add_to, amount, weight),
        sums::adds(merge, amount, amount),
        amount(zero) == 0,
        0 < groups,
        rows.len() == grad.len(),
        rows.len() == hess.len(),
        0 <= f < features,
        0 <= b,
        bounds[f] + 2 * b + 1 < bounds[f + 1] <= before.len(),
        row_bins.len() == rows.len(),
        forall|k: int| 0 <= k < rows.len() ==> #[trigger] row_bins[k] == bins[f * num_data + rows[k]],
    ensures
        after.len() == before.len(),
        amount(after[bounds[f] + 2 * b]) == amount(before[bounds[f] + 2 * b]) + sums::total_in_bin(
            row_bins,
            grad,
            weight,
            b,
        ),
        amount(after[bounds[f] + 2 * b + 1]) == amount(before[bounds[f] + 2 * b + 1]) + sums::total_in_bin(
            row_bins,
            hess,
            weight,
            b,
        ),
        forall|c: int|
            0 <= c < before.len() && (c < bounds[0] || c >= bounds[features]) ==> #[trigger] after[c] == before[c],
{
    assert(row_bins =~= fixed_build::column_bins(bins, num_data, f, rows));
    let old_cells = grouped_build::feature_cells(before, bounds, f);
    let new_cells = grouped_build::feature_cells(after, bounds, f);
    let num_bin = grouped_build::feature_bin_count(bounds, f);
    assert(old_cells.len() == bounds[f + 1] - bounds[f]);
    assert(2 * num_bin <= old_cells.len());
    assert(b < num_bin);
    grouped_cells_hold_all_rows(
        add_to,
        merge,
        zero,
        row_bins,
        grad,
        hess,
        num_bin,
        groups,
        old_cells,
        new_cells,
        amount,
        weight,
        b,
    );
    assert(old_cells[2 * b] == before[bounds[f] + 2 * b]);
    assert(old_cells[2 * b + 1] == before[bounds[f] + 2 * b + 1]);
    assert(new_cells[2 * b] == after[bounds[f] + 2 * b]);
    assert(new_cells[2 * b + 1] == after[bounds[f] + 2 * b + 1]);
}

} // verus!
