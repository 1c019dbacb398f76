//! Which inputs are refused, and with what.
use crate::bin_column::BinColumn;
use crate::dataset::LeafPartitionLayout;
use crate::error;
use crate::error::{ComputeError, Fault};
use crate::gain::{GainConfig, SplitInfo};
use crate::kernels::column_data;
use crate::kernels::copy_subrow;
use crate::kernels::data_partition;
use crate::kernels::fix_compact;
use crate::kernels::fused_scan;
use crate::kernels::grow_driver;
use crate::kernels::grow_driver::ShownNumber;
use crate::kernels::grow_feature::{BatchedSplitFeature, GrowFeature};
use crate::kernels::grow_resident;
use crate::kernels::grow_resident::PartitionArm;
use crate::kernels::hist_region;
use crate::kernels::histogram;
use crate::kernels::histogram_arena;
use crate::kernels::leaf_histogram;
use crate::kernels::objective_binary;
use crate::kernels::partition;
use crate::kernels::resident_build;
use crate::kernels::score;
use crate::laws::routing;
use crate::number::Real64;
use vstd::prelude::*;

verus! {

/// An operation succeeds exactly where there is no fault, and an error says what the fault says.
pub proof fn errors_tell_the_fault<T>(r: Result<T, ComputeError>, fault: Option<Fault>)
    requires
        error::fails_as(r, fault),
    ensures
        r is Ok <==> fault is None,
        fault matches Some(Fault::LengthMismatch { expected, actual }) ==> (r matches Err(
            ComputeError::LengthMismatch { expected: e, actual: a },
        ) && e == expected && a == actual),
        fault matches Some(Fault::BinIndexOutOfRange { row, bin, num_bin }) ==> (r matches Err(
            ComputeError::BinIndexOutOfRange { row: w, bin: b, num_bin: n },
        ) && w == row && b == bin && n == num_bin),
        fault matches Some(Fault::Runtime(detail)) ==> (r matches Err(ComputeError::Runtime { detail: d }) && d@
            == detail),
        fault matches Some(Fault::NonFinite(detail)) ==> (r matches Err(ComputeError::NonFinite { detail: d }) && d@
            == detail),
{
}

/// A column is refused for the first bin that its feature does not have, and only for such a bin.
pub proof fn first_foreign_bin_is_refused(bins: Seq<u32>, num_bin: u32, from: int)
    requires
        0 <= from,
    ensures
        match data_partition::first_bad_bin(bins, num_bin, from) {
            None => forall|i: int| from <= i < bins.len() ==> #[trigger] bins[i] < num_bin,
            Some(fault) => fault matches Fault::BinIndexOutOfRange { row, bin, num_bin: n } && {
                &&& from <= row < bins.len()
                &&& bins[row as int] == bin
                &&& bin >= num_bin
                &&& n == num_bin
                &&& forall|i: int| from <= i < row ==> #[trigger] bins[i] < num_bin
            },
        },
    decreases bins.len() - from,
{
    if from < bins.len() {
        first_foreign_bin_is_refused(bins, num_bin, from + 1);
    }
}

/// A numeric partition is carried out exactly where the threshold is a bin, there are as many rows as
/// bins, and every bin is one of the feature's.
pub proof fn numeric_partition_accepts(bins: Seq<u32>, num_bin: u32, threshold: u32, rows: nat)
    ensures
        data_partition::partition_fault(bins, num_bin, threshold, rows) is None <==> {
            &&& threshold < num_bin
            &&& rows == bins.len()
            &&& forall|i: int| 0 <= i < bins.len() ==> #[trigger] bins[i] < num_bin
        },
        threshold < num_bin && rows != bins.len() ==> data_partition::partition_fault(bins, num_bin, threshold, rows)
            == Some(Fault::LengthMismatch { expected: bins.len(), actual: rows }),
        partition::native_fault(bins, num_bin, threshold) is None <==> {
            &&& threshold < num_bin
            &&& forall|i: int| 0 <= i < bins.len() ==> #[trigger] bins[i] < num_bin
        },
{
    first_foreign_bin_is_refused(bins, num_bin, 0);
}

/// A categorical partition is carried out exactly where the feature has bins, there are as many rows as
/// bins, every bin is one of the feature's, and the bitset has a word where there is a row.
pub proof fn categorical_partition_accepts(bins: Seq<u32>, num_bin: u32, rows: nat, blocks: nat)
    ensures
        data_partition::categorical_fault(bins, num_bin, rows) is None <==> {
            &&& num_bin > 0
            &&& rows == bins.len()
            &&& forall|i: int| 0 <= i < bins.len() ==> #[trigger] bins[i] < num_bin
        },
        data_partition::categorical_device_fault(bins, num_bin, rows, blocks) is None <==> {
            &&& num_bin > 0
            &&& rows == bins.len()
            &&& forall|i: int| 0 <= i < bins.len() ==> #[trigger] bins[i] < num_bin
            &&& blocks > 0 || rows == 0
        },
        num_bin > 0 && rows != bins.len() ==> data_partition::categorical_fault(bins, num_bin, rows) == Some(
            Fault::LengthMismatch { expected: bins.len(), actual: rows },
        ),
{
    first_foreign_bin_is_refused(bins, num_bin, 0);
}

/// A partition that reads the column through the rows is carried out exactly where the threshold is a
/// bin and the bin of every row is one of the feature's.
pub proof fn fused_partition_accepts(column: Seq<u32>, rows: Seq<u32>, num_bin: u32, threshold: u32)
    ensures
        data_partition::fused_fault(column, rows, num_bin, threshold) is None <==> {
            &&& threshold < num_bin
            &&& forall|i: int| 0 <= i < rows.len() ==> column[#[trigger] rows[i] as int] < num_bin
        },
{
    let bins = data_partition::gathered(column, rows);
    first_foreign_bin_is_refused(bins, num_bin, 0);
    if forall|i: int| 0 <= i < rows.len() ==> column[#[trigger] rows[i] as int] < num_bin {
        assert forall|i: int| 0 <= i < bins.len() implies #[trigger] bins[i] < num_bin by {
            assert(column[rows[i] as int] < num_bin);
        }
    }
    if forall|i: int| 0 <= i < bins.len() ==> #[trigger] bins[i] < num_bin {
        assert forall|i: int| 0 <= i < rows.len() implies column[#[trigger] rows[i] as int] < num_bin by {
            assert(bins[i] < num_bin);
        }
    }
}

/// A histogram is built exactly where there are as many gradients and hessians as bins, its length can
/// be held, and every bin is one of the feature's. To add to one, it must have two cells per bin.
pub proof fn histogram_accepts(binned: Seq<u32>, grads: nat, hesses: nat, num_bin: u32, cells: nat)
    ensures
        histogram::histogram_fault(binned, grads, hesses, num_bin) is None <==> {
            &&& grads == binned.len()
            &&& hesses == binned.len()
            &&& num_bin + num_bin <= usize::MAX
            &&& forall|i: int| 0 <= i < binned.len() ==> #[trigger] binned[i] < num_bin
        },
        histogram::accumulate_fault(binned, grads, hesses, num_bin, cells) is None
            <==> histogram::histogram_fault(binned, grads, hesses, num_bin) is None && cells >= num_bin + num_bin,
        grads != binned.len() ==> histogram::histogram_fault(binned, grads, hesses, num_bin) == Some(
            Fault::LengthMismatch { expected: binned.len(), actual: grads },
        ),
        grads == binned.len() && hesses != binned.len() ==> histogram::histogram_fault(
            binned,
            grads,
            hesses,
            num_bin,
        ) == Some(Fault::LengthMismatch { expected: binned.len(), actual: hesses }),
{
    first_foreign_bin_is_refused(binned, num_bin, 0);
}

/// A region of a histogram is accepted exactly where it has a bin and ends within the histogram.
pub proof fn region_accepts(owner: Seq<char>, slot_off: usize, num_bin: u32, len: nat)
    requires
        len <= usize::MAX,
    ensures
        hist_region::region_fault(owner, slot_off, num_bin, len) is None <==> num_bin > 0 && slot_off + num_bin + num_bin
            <= len,
        num_bin > 0 && len < slot_off + 2 * num_bin <= usize::MAX ==> hist_region::region_fault(
            owner,
            slot_off,
            num_bin,
            len,
        ) == Some(Fault::LengthMismatch { expected: (slot_off + 2 * num_bin) as nat, actual: len }),
{
}

/// The regions of a compaction are accepted exactly where each one is.
pub proof fn compaction_accepts(owner: Seq<char>, feats: Seq<(usize, u32, i32, u32)>, len: nat, from: int)
    requires
        len <= usize::MAX,
        0 <= from,
    ensures
        fix_compact::first_region_fault(owner, feats, len, from) is None <==> forall|i: int|
            from <= i < feats.len() ==> (#[trigger] feats[i]).1 > 0 && feats[i].0 + feats[i].1 + feats[i].1 <= len,
    decreases feats.len() - from,
{
    if from < feats.len() {
        compaction_accepts(owner, feats, len, from + 1);
        region_accepts(owner, feats[from].0, feats[from].1, len);
    }
}

/// The regions of a repair are accepted exactly where each one is.
pub proof fn repair_accepts(feats: Seq<(usize, u32, u32)>, len: nat, from: int)
    requires
        len <= usize::MAX,
        0 <= from,
    ensures
        fix_compact::first_mfb_fault(feats, len, from) is None <==> forall|i: int|
            from <= i < feats.len() ==> (#[trigger] feats[i]).1 > 0 && feats[i].0 + feats[i].1 + feats[i].1 <= len,
    decreases feats.len() - from,
{
    if from < feats.len() {
        repair_accepts(feats, len, from + 1);
        region_accepts("fix_histogram_mfb"@, feats[from].0, feats[from].1, len);
    }
}

proof fn scan_regions_accept(feats: Seq<BatchedSplitFeature>, active: Seq<bool>, slot_len: usize, from: int)
    requires
        0 <= from,
    ensures
        fused_scan::first_scan_fault(feats, active, slot_len, from) is None <==> forall|i: int|
            from <= i < feats.len() ==> {
                &&& (#[trigger] feats[i]).num_bin > 0
                &&& feats[i].slot_off + feats[i].num_bin + feats[i].num_bin <= slot_len
                &&& !(feats[i].na_as_missing && active[i])
            },
    decreases feats.len() - from,
{
    if from < feats.len() {
        scan_regions_accept(feats, active, slot_len, from + 1);
        region_accepts("build_fix_scan_resident"@, feats[from].slot_off, feats[from].num_bin, slot_len as nat);
    }
}

/// A scan pass is carried out exactly where every feature says whether it is scanned, neither a limit on
/// the outputs nor a smoothing is set, the hessian sum is above zero, every region fits, and no feature
/// that is scanned has a bin of its own for not-a-number.
pub proof fn scan_pass_accepts(
    feats: Seq<BatchedSplitFeature>,
    active: Seq<bool>,
    slot_len: usize,
    cfg: GainConfig,
    sum_hessian: Real64,
)
    ensures
        fused_scan::scan_fault(feats, active, slot_len, cfg, sum_hessian) is None <==> {
            &&& active.len() == feats.len()
            &&& cfg.max_delta_step.spec_same(Real64::spec_zero())
            &&& cfg.path_smooth.spec_same(Real64::spec_zero())
            &&& sum_hessian.spec_above(Real64::spec_zero())
            &&& forall|i: int|
                0 <= i < feats.len() ==> {
                    &&& (#[trigger] feats[i]).num_bin > 0
                    &&& feats[i].slot_off + feats[i].num_bin + feats[i].num_bin <= slot_len
                    &&& !(feats[i].na_as_missing && active[i])
                }
        },
        active.len() != feats.len() ==> fused_scan::scan_fault(feats, active, slot_len, cfg, sum_hessian) == Some(
            Fault::LengthMismatch { expected: feats.len(), actual: active.len() },
        ),
{
    scan_regions_accept(feats, active, slot_len, 0);
}

/// A leaf's histogram is built exactly where the bin of each of its rows is one of the feature's, for
/// every feature, and the lengths can be held.
pub proof fn leaf_histogram_accepts(features: Seq<GrowFeature>, rows: Seq<u32>, from: int)
    requires
        0 <= from,
    ensures
        leaf_histogram::first_histogram_fault(features, rows, from) is None <==> forall|i: int|
            from <= i < features.len() ==> {
                &&& (#[trigger] features[i]).num_bin + features[i].num_bin <= usize::MAX
                &&& feature_has_the_bins(features[i], rows)
            },
    decreases features.len() - from,
{
    if from < features.len() {
        leaf_histogram_accepts(features, rows, from + 1);
        let f = features[from];
        let bins = data_partition::gathered(f.bins@, rows);
        histogram_accepts(bins, rows.len(), rows.len(), f.num_bin, 0);
        if feature_has_the_bins(f, rows) {
            assert forall|k: int| 0 <= k < bins.len() implies #[trigger] bins[k] < f.num_bin by {
                assert(f.bins@[rows[k] as int] < f.num_bin);
            }
        }
        if forall|k: int| 0 <= k < bins.len() ==> #[trigger] bins[k] < f.num_bin {
            assert forall|k: int| 0 <= k < rows.len() implies f.bins@[#[trigger] rows[k] as int] < f.num_bin by {
                assert(bins[k] < f.num_bin);
            }
        }
    }
}

/// The bin of each row is one of the feature's.
pub open spec fn feature_has_the_bins(f: GrowFeature, rows: Seq<u32>) -> bool {
    forall|k: int| 0 <= k < rows.len() ==> f.bins@[#[trigger] rows[k] as int] < f.num_bin
}

/// Rows are copied exactly where the column has an entry for each row of the data and every row that is
/// named is one of them, as long as the size of the copy can be held. The first row that is not is
/// refused, a negative one with its position.
pub proof fn copied_rows_are_rows(used: Seq<i32>, num_data: usize, from: int)
    requires
        0 <= from,
        num_data <= u32::MAX,
    ensures
        match copy_subrow::first_row_fault(used, num_data, from) {
            None => forall|i: int| from <= i < used.len() ==> 0 <= #[trigger] used[i] < num_data,
            Some(Fault::BinIndexOutOfRange { row, bin, num_bin }) => {
                &&& from <= row < used.len()
                &&& used[row as int] == bin
                &&& bin >= num_data
                &&& num_bin == num_data
                &&& forall|i: int| from <= i < row ==> 0 <= #[trigger] used[i] < num_data
            },
            Some(Fault::Runtime(_)) => exists|i: int| from <= i < used.len() && #[trigger] used[i] < 0,
            Some(_) => false,
        },
    decreases used.len() - from,
{
    if from < used.len() {
        copied_rows_are_rows(used, num_data, from + 1);
        assert(used[from] < 0 || used[from] >= 0);
    }
}

/// The same for the copy as a whole.
pub proof fn row_copy_accepts(column: BinColumn, used: Seq<i32>, num_data: usize)
    requires
        num_data <= u32::MAX,
        4 * used.len() <= usize::MAX,
    ensures
        copy_subrow::copy_subrow_fault(column, used, num_data) is None <==> {
            &&& column@.len() == num_data
            &&& forall|i: int| 0 <= i < used.len() ==> 0 <= #[trigger] used[i] < num_data
        },
        column@.len() != num_data ==> copy_subrow::copy_subrow_fault(column, used, num_data) == Some(
            Fault::LengthMismatch { expected: num_data as nat, actual: column@.len() },
        ),
{
    copied_rows_are_rows(used, num_data, 0);
    let bytes = column.width() / 8;
    assert(bytes == 1 || bytes == 2 || bytes == 4);
    assert(used.len() * bytes <= 4 * used.len()) by (nonlinear_arith)
        requires
            bytes <= 4,
    ;
}

/// A column of cells is 8, 16 or 32 bits wide, and no other width is accepted.
pub proof fn cells_have_three_widths(bit_type: u32)
    ensures
        column_data::width_fault(bit_type) is None <==> bit_type == 8 || bit_type == 16 || bit_type == 32,
        column_data::width_fault(bit_type) is None ==> column_data::cell_capacity(bit_type)
            == vstd::arithmetic::power2::pow2(bit_type as nat),
{
    vstd::arithmetic::power2::lemma2_to64();
}

/// A tree is added to the scores exactly where it is of as many rows, every leaf has a value, and the
/// range of every leaf lies within the rows.
pub proof fn added_tree_fits(layout: LeafPartitionLayout, from: int)
    requires
        0 <= from,
        layout.leaf_count@.len() == layout.leaf_begin@.len(),
    ensures
        score::first_range_fault(layout, from) is None <==> forall|l: int|
            from <= l < layout.leaf_begin@.len() ==> {
                &&& 0 <= #[trigger] layout.leaf_begin@[l]
                &&& 0 <= layout.leaf_count@[l]
                &&& layout.leaf_begin@[l] + layout.leaf_count@[l] <= layout.indices@.len()
            },
    decreases layout.leaf_begin@.len() - from,
{
    if from < layout.leaf_begin@.len() {
        added_tree_fits(layout, from + 1);
    }
}

/// The lengths that a tree's scores are refused for.
pub proof fn added_tree_has_a_value_per_leaf(layout: LeafPartitionLayout, num_data: nat, values: nat)
    requires
        0 <= layout.num_data,
    ensures
        layout.num_data != num_data ==> score::add_tree_fault(layout, num_data, values) == Some(
            Fault::LengthMismatch { expected: num_data, actual: layout.num_data as nat },
        ),
        layout.num_data == num_data && layout.leaf_begin@.len() > values ==> score::add_tree_fault(
            layout,
            num_data,
            values,
        ) == Some(Fault::LengthMismatch { expected: layout.leaf_begin@.len(), actual: values }),
        layout.num_data == num_data && layout.leaf_begin@.len() <= values ==> score::add_tree_fault(
            layout,
            num_data,
            values,
        ) == score::first_range_fault(layout, 0),
{
}

/// Gradients are computed exactly where there is a label for each score, and a weight for each score
/// where there are weights.
pub proof fn gradients_accept(scores: nat, labels: nat, weights: nat)
    ensures
        objective_binary::gradient_fault(scores, labels, None) is None <==> labels == scores,
        objective_binary::gradient_fault(scores, labels, Some(weights)) is None <==> labels == scores && weights
            == scores,
        labels != scores ==> objective_binary::gradient_fault(scores, labels, Some(weights)) == Some(
            Fault::LengthMismatch { expected: scores, actual: labels },
        ),
        labels == scores && weights != scores ==> objective_binary::gradient_fault(scores, labels, Some(weights))
            == Some(Fault::LengthMismatch { expected: scores, actual: weights }),
        objective_binary::prior_fault(labels, None) is None,
        objective_binary::prior_fault(labels, Some(weights)) is None <==> labels == 0 || weights == labels,
        labels != 0 && weights != labels ==> objective_binary::prior_fault(labels, Some(weights)) == Some(
            Fault::LengthMismatch { expected: labels, actual: weights },
        ),
{
}

/// A pool of histograms has a slot and a cell, and its size in bytes can be held.
pub proof fn pool_accepts(num_slots: usize, slot_len: usize)
    ensures
        histogram_arena::new_fault(num_slots, slot_len) is None <==> num_slots > 0 && slot_len > 0 && 8 * slot_len
            <= usize::MAX,
{
}

/// A growth starts exactly where a leaf is asked for, there is a feature, and there are as many hessians
/// as gradients.
pub proof fn growth_accepts(num_leaves: i32, features: nat, gradients: nat, hessians: nat)
    ensures
        grow_driver::grow_inputs_fault(num_leaves, features, gradients, hessians) is None <==> num_leaves >= 1
            && features >= 1 && gradients == hessians,
        num_leaves >= 1 && features >= 1 && gradients != hessians ==> grow_driver::grow_inputs_fault(
            num_leaves,
            features,
            gradients,
            hessians,
        ) == Some(Fault::LengthMismatch { expected: gradients, actual: hessians }),
{
}

/// A growth starts only from finite sums, and a tree is emitted only with finite values.
pub proof fn sums_and_values_are_finite(sum_g: ShownNumber, sum_h: ShownNumber, values: Seq<Real64>, from: int)
    requires
        0 <= from,
    ensures
        grow_driver::root_seed_fault(sum_g, sum_h) is None <==> sum_g.value.spec_is_finite()
            && sum_h.value.spec_is_finite(),
        grow_driver::root_seed_fault(sum_g, sum_h) is Some ==> grow_driver::root_seed_fault(sum_g, sum_h)->Some_0
            is NonFinite,
        grow_driver::leaf_value_fault(values, from) is None <==> forall|i: int|
            from <= i < values.len() ==> (#[trigger] values[i]).spec_is_finite(),
        grow_driver::leaf_value_fault(values, from) is Some ==> grow_driver::leaf_value_fault(values, from)->Some_0
            is NonFinite,
    decreases values.len() - from,
{
    if from < values.len() {
        sums_and_values_are_finite(sum_g, sum_h, values, from + 1);
    }
}

/// A numeric split of a leaf is carried out exactly where its threshold is a bin of the feature and has an
/// upper bound, as long as the column holds bins of the feature.
pub proof fn numeric_split_accepts(
    f: GrowFeature,
    best: SplitInfo,
    best_cat: Seq<u32>,
    rows: Seq<u32>,
    arm: PartitionArm,
    leaf_id: usize,
    num_leaves: nat,
)
    requires
        !f.is_categorical(),
        feature_has_the_bins(f, rows),
    ensures
        grow_driver::split_fault(f, best, best_cat, rows) is None <==> best.threshold < f.num_bin && best.threshold
            < f.bin_upper_bound@.len(),
        grow_resident::resident_split_fault(arm, f, best, rows, leaf_id, num_leaves) is None <==> {
            &&& best.threshold < f.num_bin
            &&& best.threshold < f.bin_upper_bound@.len()
            &&& arm is Device ==> leaf_id < num_leaves
        },
{
    let bins = grow_driver::leaf_bins(f, rows);
    assert forall|k: int| 0 <= k < bins.len() implies #[trigger] bins[k] < f.num_bin by {
        assert(f.bins@[rows[k] as int] < f.num_bin);
        routing::leaf_rows_keep_their_bins(f, rows, k);
    }
    let own = grow_resident::arm_bins(arm, f, rows);
    assert forall|k: int| 0 <= k < own.len() implies #[trigger] own[k] < f.num_bin by {
        assert(f.bins@[rows[k] as int] < f.num_bin);
        assert(bins[k] < f.num_bin);
    }
    numeric_partition_accepts(bins, f.num_bin, best.threshold, rows.len());
    numeric_partition_accepts(own, f.num_bin, best.threshold, rows.len());
}

/// A resident partition is carried out exactly where the threshold is a bin, the leaf is one of the
/// table's, its span has rows and lies within the data, and the column lies within the bins.
pub proof fn resident_partition_accepts(
    num_bin: u32,
    threshold: u32,
    leaf_id: usize,
    num_leaves: nat,
    p_begin: i32,
    p_count: i32,
    num_data: nat,
    col_off: usize,
    bins_len: nat,
)
    ensures
        partition::resident_fault(
            num_bin,
            threshold,
            leaf_id,
            num_leaves,
            p_begin,
            p_count,
            num_data,
            col_off,
            bins_len,
        ) is None <==> {
            &&& threshold < num_bin
            &&& leaf_id < num_leaves
            &&& 0 <= p_begin
            &&& 1 <= p_count
            &&& p_begin + p_count <= num_data
            &&& col_off + num_data <= bins_len
        },
{
}

/// A fixed-point build is refused where its sums might leave the range of 64 bits, and then only for its
/// regions.
pub proof fn fixed_build_accepts(
    may_overflow: bool,
    grad: Seq<i64>,
    hess: Seq<i64>,
    feats: Seq<(usize, u32, i32, u32)>,
    slot_len: usize,
)
    ensures
        resident_build::build_fix_compact_fault(may_overflow, grad, hess, feats, slot_len) is None <==> {
            &&& !may_overflow
            &&& grad.len() * resident_build::largest_fixed(grad, hess, grad.len() as int) < i64::MAX
            &&& forall|i: int|
                0 <= i < feats.len() ==> (#[trigger] feats[i]).1 > 0 && feats[i].0 + feats[i].1 + feats[i].1
                    <= slot_len
        },
{
    compaction_accepts("build_fix_compact_resident"@, feats, slot_len as nat, 0);
}

/// The rows of a leaf map are refused for the first one that is no row, and only for such a one.
pub proof fn leaf_map_accepts(rows: Seq<u32>, to_left: Seq<u32>, num_data: usize)
    ensures
        data_partition::leaf_map_fault(rows, to_left, num_data) is None <==> rows.len() == to_left.len() && forall|
            i: int,
        |
            0 <= i < rows.len() ==> #[trigger] rows[i] < num_data,
        rows.len() != to_left.len() ==> data_partition::leaf_map_fault(rows, to_left, num_data) == Some(
            Fault::LengthMismatch { expected: rows.len(), actual: to_left.len() },
        ),
{
    first_foreign_row(rows, num_data, 0);
}

proof fn first_foreign_row(rows: Seq<u32>, num_data: usize, from: int)
    requires
        0 <= from,
    ensures
        data_partition::first_bad_row(rows, num_data, from) is None <==> forall|i: int|
            from <= i < rows.len() ==> #[trigger] rows[i] < num_data,
    decreases rows.len() - from,
{
    if from < rows.len() {
        first_foreign_row(rows, num_data, from + 1);
    }
}

} // verus!
