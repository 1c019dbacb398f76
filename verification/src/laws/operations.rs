//! What single operations give back.
use crate::bin_column::BinColumn;
use crate::dataset::LeafPartitionLayout;
use crate::error::ComputeError;
use crate::gain::SplitInfo;
use crate::kernels::categorical_split;
use crate::kernels::data_partition;
use crate::kernels::data_partition::{NumericRoute, RouteFlags, SplitPacket};
use crate::kernels::fused_scan;
use crate::kernels::fused_scan::ScannedSplit;
use crate::kernels::grow_driver;
use crate::kernels::grow_driver::{GrowDriver, SplitWork};
use crate::kernels::grow_feature;
use crate::kernels::grow_feature::GrowFeature;
use crate::kernels::leaf_histogram;
use crate::kernels::partition;
use crate::kernels::split_info::SplitScalars;
use crate::kernels::window_reduce;
use crate::laws::categories;
use crate::laws::growth;
use crate::laws::histograms;
use crate::laws::refusals;
use crate::laws::routing;
use crate::laws::splits;
use crate::laws::sums;
use crate::number::Real64;
use crate::stable;
use vstd::prelude::*;

verus! {

/// The flags of a split and a bin decide on which side a row goes. A row that holds the missing value
/// goes to the default side, whatever the threshold is; any other row is held against the threshold.
pub proof fn derived_route_sends_each_row(
    r: NumericRoute,
    flags: RouteFlags,
    bin: i32,
    left: bool,
    mark: u32,
)
    requires
        call_ensures(
            RouteFlags::derive,
            (r.min_bin, r.max_bin, r.default_bin, r.most_freq_bin, r.missing_type, r.default_left),
            flags,
        ),
        call_ensures(
            data_partition::route_left_host,
            (
                bin,
                r.min_bin as i32,
                r.max_bin as i32,
                r.default_bin as i32,
                r.most_freq_bin as i32,
                r.threshold as i32,
                flags,
            ),
            left,
        ),
        call_ensures(
            data_partition::route_to_left,
            (
                bin,
                r.min_bin as i32,
                r.max_bin as i32,
                r.default_bin as i32,
                r.most_freq_bin as i32,
                r.threshold as i32,
                flags,
            ),
            mark,
        ),
        0 <= bin,
        routing::signed_range(r, bin as u32),
    ensures
        mark == 1 <==> left,
        mark <= 1,
        routing::holds_missing(r, bin as u32) ==> left == r.default_left,
        !routing::holds_missing(r, bin as u32) && r.min_bin <= bin <= r.max_bin && r.most_freq_bin > 0 ==> (left
            <==> bin - r.min_bin <= r.threshold),
        !routing::holds_missing(r, bin as u32) && r.min_bin <= bin <= r.max_bin && r.most_freq_bin == 0 ==> (left
            <==> bin - r.min_bin < r.threshold),
        !routing::holds_missing(r, bin as u32) && !(r.min_bin <= bin <= r.max_bin) ==> (left <==> r.most_freq_bin
            <= r.threshold),
{
    assert(flags == RouteFlags::spec_derive(r));
    assert(left == r.goes_left(bin as u32));
    if routing::holds_missing(r, bin as u32) {
        routing::missing_rows_take_the_default_side(r, bin as u32);
    } else {
        routing::other_rows_are_held_against_the_threshold(r, bin as u32);
    }
}

/// A plain split marks a row 0 where it goes left and 1 where it goes right.
pub proof fn plain_route_marks_the_right(
    bin: u32,
    min_bin: i32,
    max_bin: i32,
    threshold: i32,
    most_freq_bin: i32,
    route: u32,
)
    requires
        call_ensures(partition::data_partition_kernel, (bin, min_bin, max_bin, threshold, most_freq_bin), route),
        bin <= i32::MAX,
    ensures
        min_bin <= bin <= max_bin && most_freq_bin == 0 ==> route == (if bin - min_bin < threshold {
            0u32
        } else {
            1u32
        }),
        min_bin <= bin <= max_bin && most_freq_bin != 0 ==> route == (if bin - min_bin <= threshold {
            0u32
        } else {
            1u32
        }),
        !(min_bin <= bin <= max_bin) ==> route == (if most_freq_bin <= threshold {
            0u32
        } else {
            1u32
        }),
{
}

/// A stable partition of a leaf holds the rows that go left first, each in its order, and says how many
/// they are.
pub proof fn leaf_partition_sets_left_rows_first(
    bins: &BinColumn,
    rows: &[u32],
    num_bin: u32,
    route: NumericRoute,
    r: Result<(Vec<u32>, usize), ComputeError>,
    p: int,
) -> (i: int)
    requires
        call_ensures(
            data_partition::partition_leaf_stable,
            (
                bins,
                rows,
                num_bin,
                route.min_bin,
                route.max_bin,
                route.default_bin,
                route.most_freq_bin,
                route.missing_type,
                route.default_left,
                route.threshold,
            ),
            r,
        ),
        rows@.len() == bins@.len(),
        0 <= p < rows@.len(),
    ensures
        r is Ok <==> route.threshold < num_bin && forall|k: int|
            0 <= k < bins@.len() ==> #[trigger] bins@[k] < num_bin,
        r is Ok ==> {
            &&& r->Ok_0.0@.to_multiset() == rows@.to_multiset()
            &&& 0 <= i < rows@.len()
            &&& r->Ok_0.0@[p] == rows@[i]
            &&& p < r->Ok_0.1 <==> route.goes_left(bins@[i])
        },
{
    refusals::numeric_partition_accepts(bins@, num_bin, route.threshold, rows@.len());
    if r is Ok {
        routing::partition_sets_left_rows_first(r, rows@, bins@, route, p)
    } else {
        0
    }
}

/// The same of a partition that reads the column through the rows.
pub proof fn fused_partition_sets_left_rows_first(
    column: &BinColumn,
    rows: &[u32],
    num_bin: u32,
    route: NumericRoute,
    r: Result<(Vec<u32>, usize), ComputeError>,
    p: int,
) -> (i: int)
    requires
        call_ensures(
            data_partition::partition_leaf_stable_fused,
            (
                column,
                rows,
                num_bin,
                route.min_bin,
                route.max_bin,
                route.default_bin,
                route.most_freq_bin,
                route.missing_type,
                route.default_left,
                route.threshold,
            ),
            r,
        ),
        r is Ok,
        0 <= p < rows@.len(),
    ensures
        r->Ok_0.0@.to_multiset() == rows@.to_multiset(),
        0 <= i < rows@.len(),
        r->Ok_0.0@[p] == rows@[i],
        p < r->Ok_0.1 <==> route.goes_left(column@[rows@[i] as int]),
{
    routing::partition_sets_left_rows_first(
        r,
        rows@,
        data_partition::gathered(column@, rows@),
        route,
        p,
    )
}

/// The same of a partition by the device's kernels.
pub proof fn device_partition_sets_left_rows_first(
    bins: &BinColumn,
    rows: &[u32],
    num_bin: u32,
    route: NumericRoute,
    r: Result<(Vec<u32>, usize), ComputeError>,
    p: int,
) -> (i: int)
    requires
        call_ensures(
            data_partition::partition_on_device,
            (
                bins,
                rows,
                num_bin,
                route.min_bin,
                route.max_bin,
                route.default_bin,
                route.most_freq_bin,
                route.missing_type,
                route.default_left,
                route.threshold,
            ),
            r,
        ),
        r is Ok,
        rows@.len() == bins@.len(),
        0 <= p < rows@.len(),
    ensures
        r->Ok_0.0@.to_multiset() == rows@.to_multiset(),
        0 <= i < rows@.len(),
        r->Ok_0.0@[p] == rows@[i],
        p < r->Ok_0.1 <==> route.goes_left(bins@[i]),
{
    routing::partition_sets_left_rows_first(r, rows@, bins@, route, p)
}

/// The category of a bin is the entry of the table for it; a bin past the table is its own category.
pub proof fn category_is_the_table_entry(bin: i32, bin_to_category: &[i32], c: i32)
    requires
        call_ensures(categorical_split::real_category, (bin, bin_to_category), c),
        0 <= bin,
    ensures
        bin < bin_to_category@.len() ==> c == bin_to_category@[bin as int],
        bin >= bin_to_category@.len() ==> c == bin,
{
    assert(bin as usize == bin);
}

/// The first bitset of a categorical split holds the table's categories of the winning bins and the
/// winning bins past the table, and nothing else; the second holds the winning bins.
pub proof fn threshold_bitsets_hold_the_winners(
    bins: &[i32],
    bin_to_category: &[i32],
    offset: i32,
    r: (Vec<u32>, Vec<u32>),
    k: int,
    v: u32,
) -> (i: int)
    requires
        call_ensures(categorical_split::set_real_threshold, (bins, bin_to_category, offset), r),
        forall|j: int| 0 <= j < bins@.len() ==> 0 <= #[trigger] bins@[j],
        0 <= k < bins@.len(),
    ensures
        bins@[k] < bin_to_category@.len() ==> data_partition::in_bitset(
            r.0@,
            bin_to_category@[bins@[k] as int] as u32 as int,
        ),
        bins@[k] >= bin_to_category@.len() ==> data_partition::in_bitset(r.0@, bins@[k] as int),
        data_partition::in_bitset(r.0@, v as int) ==> 0 <= i < bins@.len() && v == (if bins@[i]
            < bin_to_category@.len() {
            bin_to_category@[bins@[i] as int] as u32
        } else {
            bins@[i] as u32
        }),
        v <= i32::MAX ==> (data_partition::in_bitset(r.1@, v as int) <==> bins@.contains(v as i32)),
{
    if v <= i32::MAX {
        categories::winning_bins_are_in_the_bitset(r.1@, bins@, v as i32);
    }
    categories::winning_categories_are_in_the_bitset(r.0@, bins@, bin_to_category@, k);
    if data_partition::in_bitset(r.0@, v as int) {
        categories::bitset_has_winning_categories_only(r.0@, bins@, bin_to_category@, v)
    } else {
        0
    }
}

/// A bitset has exactly the numbers that it is made of.
pub proof fn constructed_bitset_has_its_numbers(vals: &[u32], bits: Vec<u32>, v: u32)
    requires
        call_ensures(categorical_split::construct_bitset, (vals,), bits),
    ensures
        data_partition::in_bitset(bits@, v as int) <==> vals@.contains(v),
{
}

/// Dividing a leaf's rows records for the child with the left rows what the best split has for its left
/// side, and for the child with the right rows what it has for its right side.
pub proof fn divided_rows_go_with_their_values(
    leaf: usize,
    f: &GrowFeature,
    best: &SplitInfo,
    best_cat: &[u32],
    rows: &[u32],
    recorded_gain: Real64,
    r: Result<SplitWork, ComputeError>,
    i: int,
)
    requires
        call_ensures(grow_driver::split_rows, (leaf, f, best, best_cat, rows, recorded_gain), r),
        r is Ok,
        !f.is_categorical(),
        leaf <= i32::MAX,
        rows@.len() <= i32::MAX,
        best_cat@.len() <= i32::MAX,
        0 <= i < rows@.len(),
        f.bins@[rows@[i] as int] < f.num_bin,
    ensures
        ({
            let work = r->Ok_0;
            let goes_left = f.route(*best).goes_left(f.bins@[rows@[i] as int]);
            &&& goes_left ==> work.left_rows@.contains(rows@[i])
            &&& !goes_left ==> work.right_rows@.contains(rows@[i])
            &&& work.scalars.left_value == best.left_output
            &&& work.scalars.left_sum_gradients == best.left_sum_gradient
            &&& work.scalars.left_sum_hessians == best.left_sum_hessian
            &&& work.scalars.left_count == work.left_rows@.len()
            &&& work.scalars.right_value == best.right_output
            &&& work.scalars.right_sum_gradients == best.right_sum_gradient
            &&& work.scalars.right_sum_hessians == best.right_sum_hessian
            &&& work.scalars.right_count == work.right_rows@.len()
            &&& work.scalars.left_count + work.scalars.right_count == rows@.len()
            &&& work.scalars.threshold == best.threshold
            &&& work.scalars.default_left == best.default_left
            &&& work.scalars.inner_feature_index == f.real_feature_index
            &&& work.scalars.leaf_index == leaf
            &&& work.scalars.gain == recorded_gain
            &&& work.real_threshold == Some(f.bin_upper_bound@[best.threshold as int])
        }),
{
    let work = r->Ok_0;
    splits::recorded_sides_go_with_their_rows(work, leaf as int, *f, *best, best_cat@, rows@, recorded_gain);
    splits::each_row_gets_the_output_of_its_side(
        work,
        leaf as int,
        *f,
        *best,
        best_cat@,
        rows@,
        recorded_gain,
        i,
    );
}

/// A window decodes to its own numbers, side by side, where its scan found a threshold.
pub proof fn window_decodes_to_its_numbers(w: &ScannedSplit, s: SplitInfo)
    requires
        call_ensures(ScannedSplit::to_candidate, (w,), s),
    ensures
        w.is_splittable && w.raw_gain.spec_above(Real64::spec_neg_infinity()) ==> {
            &&& s.gain == w.shifted_gain
            &&& s.threshold == w.threshold
            &&& s.default_left == w.default_left
            &&& s.left_sum_gradient == w.left_sum_gradient
            &&& s.left_sum_hessian == w.left_sum_hessian
            &&& s.left_output == w.left_output
            &&& s.left_count == w.left_count
            &&& s.right_sum_gradient == w.right_sum_gradient
            &&& s.right_sum_hessian == w.right_sum_hessian
            &&& s.right_output == w.right_output
            &&& s.right_count == w.right_count
        },
        !(w.is_splittable && w.raw_gain.spec_above(Real64::spec_neg_infinity())) ==> !s.gain.spec_above(
            Real64::spec_neg_infinity(),
        ),
{
    splits::decoded_window_keeps_its_numbers(*w);
}

/// The splits that are decoded are those of the windows that were scanned, one for each, in their order.
pub proof fn decoded_splits_are_of_the_scanned_windows(
    scanned: &[ScannedSplit],
    scan_active: &[bool],
    splits: Vec<SplitInfo>,
    p: int,
) -> (i: int)
    requires
        call_ensures(fused_scan::decode_splits, (scanned, scan_active), splits),
        scanned@.len() == scan_active@.len(),
        0 <= p < splits@.len(),
    ensures
        splits@.len() == scan_active@.to_multiset().count(true),
        0 <= i < scanned@.len(),
        scan_active@[i],
        p == scan_active@.take(i).to_multiset().count(true),
        scanned@[i].is_splittable && scanned@[i].raw_gain.spec_above(Real64::spec_neg_infinity()) ==> {
            &&& splits@[p].gain == scanned@[i].shifted_gain
            &&& splits@[p].threshold == scanned@[i].threshold
            &&& splits@[p].default_left == scanned@[i].default_left
            &&& splits@[p].left_sum_gradient == scanned@[i].left_sum_gradient
            &&& splits@[p].left_sum_hessian == scanned@[i].left_sum_hessian
            &&& splits@[p].left_output == scanned@[i].left_output
            &&& splits@[p].left_count == scanned@[i].left_count
            &&& splits@[p].right_sum_gradient == scanned@[i].right_sum_gradient
            &&& splits@[p].right_sum_hessian == scanned@[i].right_sum_hessian
            &&& splits@[p].right_output == scanned@[i].right_output
            &&& splits@[p].right_count == scanned@[i].right_count
        },
        !(scanned@[i].is_splittable && scanned@[i].raw_gain.spec_above(Real64::spec_neg_infinity()))
            ==> !splits@[p].gain.spec_above(Real64::spec_neg_infinity()),
{
    let all = fused_scan::candidates(scanned@);
    stable::chosen_len(all, scan_active@, true);
    let i = stable::rank_is_reached(scan_active@, p, true);
    stable::chosen_at(all, scan_active@, i, true);
    routing::tally_is_the_count(scan_active@, true);
    routing::tally_is_the_count(scan_active@.take(i), true);
    splits::decoded_window_keeps_its_numbers(scanned@[i]);
    i
}

/// The record that the scanned windows are reduced to holds the numbers of one of them, with its feature:
/// no scanned window has a greater gain, nor the same gain and a lower feature.
pub proof fn reduced_record_is_of_the_best_window(
    scanned: &[ScannedSplit],
    scan_active: &[bool],
    real_feats: &[i32],
    leaf: usize,
    record: SplitScalars,
    k: int,
) -> (w: int)
    requires
        call_ensures(window_reduce::reduce_scanned_windows, (scanned, scan_active, real_feats, leaf), record),
        scan_active@.len() == scanned@.len(),
        real_feats@.len() == scanned@.len(),
        leaf <= i32::MAX,
        forall|i: int|
            0 <= i < scanned@.len() && scan_active@[i] ==> !(#[trigger] scanned@[i]).shifted_gain.spec_is_nan(),
        forall|i: int| 0 <= i < scanned@.len() ==> 0 <= #[trigger] real_feats@[i] < i32::MAX,
        0 <= k < scanned@.len(),
        scan_active@[k],
        scanned@[k].is_splittable,
        scanned@[k].raw_gain.spec_above(Real64::spec_neg_infinity()),
        scanned@[k].shifted_gain.spec_above(Real64::spec_neg_infinity()),
    ensures
        record.is_valid,
        record.leaf_index == leaf,
        0 <= w < scanned@.len(),
        scan_active@[w],
        record.gain == scanned@[w].shifted_gain,
        record.inner_feature_index == real_feats@[w],
        record.threshold == scanned@[w].threshold,
        record.default_left == scanned@[w].default_left,
        record.left_value == scanned@[w].left_output,
        record.left_sum_gradients == scanned@[w].left_sum_gradient,
        record.left_sum_hessians == scanned@[w].left_sum_hessian,
        record.right_value == scanned@[w].right_output,
        record.right_sum_gradients == scanned@[w].right_sum_gradient,
        record.right_sum_hessians == scanned@[w].right_sum_hessian,
        !scanned@[k].shifted_gain.spec_above(scanned@[w].shifted_gain),
        !scanned@[w].shifted_gain.spec_above(scanned@[k].shifted_gain) ==> real_feats@[w] <= real_feats@[k],
{
    let all = fused_scan::candidates(scanned@);
    let skips = fused_scan::unmarked(scan_active@);
    let n = scanned@.len() as int;
    assert forall|i: int| 0 <= i < n && !skips[i] implies !(#[trigger] all[i]).gain.spec_is_nan() by {
        assert(!scanned@[i].shifted_gain.spec_is_nan());
    }
    let w = window_reduce::winning_window(scanned@, scan_active@, real_feats@);
    assert(all[k] == scanned@[k].candidate());
    growth::winner_has_the_greatest_gain(all, skips, real_feats@, n, k);
    assert(w >= 0);
    assert(all[w] == scanned@[w].candidate());
    splits::frontier_record_keeps_the_sides(leaf, all[w], real_feats@[w]);
    splits::decoded_window_keeps_its_numbers(scanned@[w]);
    w
}

/// The packet of a split names the left leaf first, then the right one, and then the smaller and the
/// larger one. Its sums are the hessians of both sides and then their gradients.
pub proof fn packet_names_left_before_right(
    left_leaf: i32,
    left_num: i32,
    left_start: i32,
    right_leaf: i32,
    right_num: i32,
    right_start: i32,
    scalars: &SplitScalars,
    packet: SplitPacket,
)
    requires
        call_ensures(
            data_partition::split_tree_structure_packet,
            (left_leaf, left_num, left_start, right_leaf, right_num, right_start, scalars),
            packet,
        ),
    ensures
        packet.ints@[0] == left_leaf,
        packet.ints@[1] == left_num,
        packet.ints@[2] == left_start,
        packet.ints@[3] == right_leaf,
        packet.ints@[4] == right_num,
        packet.ints@[5] == right_start,
        left_num < right_num ==> packet.ints@[6] == left_leaf && packet.ints@[7] == right_leaf,
        left_num >= right_num ==> packet.ints@[6] == right_leaf && packet.ints@[7] == left_leaf,
        packet.sums@[0] == scalars.left_sum_hessians,
        packet.sums@[1] == scalars.right_sum_hessians,
        packet.sums@[2] == scalars.left_sum_gradients,
        packet.sums@[3] == scalars.right_sum_gradients,
{
}

/// The layout of a growth has the rows of each leaf where the leaf's begin and count say.
pub proof fn layout_holds_the_rows_of_each_leaf(
    driver: &GrowDriver,
    final_leaves: usize,
    layout: LeafPartitionLayout,
    l: int,
)
    requires
        call_ensures(GrowDriver::layout, (driver, final_leaves), layout),
        driver@.wf(),
        0 <= l < driver@.leaves.len(),
        l < final_leaves,
    ensures
        layout.num_data == driver@.num_data,
        l < layout.leaf_begin@.len(),
        l < layout.leaf_count@.len(),
        layout.leaf_count@[l] == driver@.leaves[l].rows.len(),
        0 <= layout.leaf_begin@[l],
        layout.leaf_begin@[l] + layout.leaf_count@[l] <= layout.indices@.len(),
        layout.indices@.subrange(
            layout.leaf_begin@[l] as int,
            layout.leaf_begin@[l] + layout.leaf_count@[l],
        ) == driver@.leaves[l].rows,
{
    let k = layout.leaf_begin@.len() as int;
    growth::rows_stand_leaf_by_leaf(driver@.leaves, k, l);
    assert(layout.leaf_begin@[l] == grow_driver::rows_of(driver@.leaves, l).len());
    assert(layout.leaf_count@[l] == driver@.leaves[l].rows.len());
}

/// The histogram of a leaf holds in every cell the sum of the leaf's rows in its bin, the even cells of
/// the gradients and the odd cells of the hessians, where the leaf's sums are those of its rows.
pub proof fn built_leaf_histogram_holds_its_rows<C: Copy, V: Copy, A: Fn(C, V) -> C, S: Fn(C, C) -> C>(
    add_to: &A,
    take_off: &S,
    zero: C,
    features: &[GrowFeature],
    gradients: &[V],
    hessians: &[V],
    rows: &[u32],
    sum_g: C,
    sum_h: C,
    slot_off: &[usize],
    hist_len: usize,
    r: Result<Vec<C>, ComputeError>,
    amount: spec_fn(C) -> int,
    weight: spec_fn(V) -> int,
    i: int,
    b: int,
)
    requires
        call_ensures(
            leaf_histogram::build_leaf_hist::<C, V, A, S>,
            (add_to, take_off, zero, features, gradients, hessians, rows, sum_g, sum_h, slot_off, hist_len),
            r,
        ),
        r is Ok,
        rows@.len() > 0,
        0 <= i < features@.len(),
        slot_off@.len() == features@.len(),
        forall|k: int|
            0 <= k < features@.len() ==> #[trigger] slot_off@[k] == grow_feature::cells_before(features@, k),
        hist_len == grow_feature::cells_before(features@, features@.len() as int),
        sums::adds(*add_to, amount, weight),
        sums::takes_off(*take_off, amount),
        amount(zero) == 0,
        amount(sum_g) == sums::rows_total(rows@, gradients@, weight),
        amount(sum_h) == sums::rows_total(rows@, hessians@, weight),
        forall|k: int|
            0 <= k < rows@.len() ==> features@[i].bins@[#[trigger] rows@[k] as int] < features@[i].num_bin,
        0 <= features@[i].offset <= b < features@[i].num_bin,
    ensures
        amount(r->Ok_0@[slot_off@[i] + 2 * (b - features@[i].offset)]) == sums::rows_in_bin(
            rows@,
            features@[i].bins@,
            gradients@,
            weight,
            b,
        ),
        amount(r->Ok_0@[slot_off@[i] + 2 * (b - features@[i].offset) + 1]) == sums::rows_in_bin(
            rows@,
            features@[i].bins@,
            hessians@,
            weight,
            b,
        ),
{
    histograms::leaf_cell_is_the_sum_of_its_rows(
        *add_to,
        *take_off,
        zero,
        features@,
        gradients@,
        hessians@,
        rows@,
        sum_g,
        sum_h,
        slot_off@,
        hist_len,
        r->Ok_0@,
        amount,
        weight,
        i,
        b,
    );
}

} // verus!
