//! What is stored in buffers, pools and ledgers, and what is read back.
use crate::bin_column::BinColumn;
use crate::dataset::LeafPartitionLayout;
use crate::error::ComputeError;
use crate::gain::GainConfig;
use crate::kernels::categorical_split;
use crate::kernels::categorical_split::{CategoricalSplit, CategoryCandidate};
use crate::kernels::column_data;
use crate::kernels::data_partition;
use crate::kernels::grow_feature;
use crate::kernels::grow_feature::GrowFeature;
use crate::kernels::grow_ledger;
use crate::kernels::grow_ledger::GrowCounters;
use crate::kernels::hist_region;
use crate::kernels::histogram;
use crate::kernels::histogram_arena::HistArena;
use crate::kernels::objective_binary;
use crate::kernels::score;
use crate::kernels::score::ResidentScore;
use crate::laws::sums;
use crate::number::Real64;
use crate::stable;
use vstd::prelude::*;

verus! {

/// A leaf's slot is read back as it was set, and no other leaf's slot changes.
pub proof fn leaf_slot_is_read_back<H>(
    arena: &mut HistArena<H>,
    leaf: usize,
    slot: usize,
    r: Result<(), ComputeError>,
    other: usize,
)
    requires
        call_ensures(HistArena::<H>::set_leaf_slot, (arena, leaf, slot), r),
    ensures
        r is Ok <==> slot < old(arena)@.slots.len(),
        r is Ok ==> final(arena)@.leaf_slots.contains_key(leaf) && final(arena)@.leaf_slots[leaf] == slot,
        other != leaf ==> final(arena)@.leaf_slots.contains_key(other) == old(arena)@.leaf_slots.contains_key(other),
        other != leaf ==> final(arena)@.leaf_slots[other] == old(arena)@.leaf_slots[other],
        final(arena)@.slots == old(arena)@.slots,
{
}

/// A swap hands the parent's slot to the larger child and the next slot in turn to the smaller one, the
/// left child where the flag says so.
pub proof fn swap_hands_the_slot_to_the_larger_child<H>(
    arena: &mut HistArena<H>,
    parent: usize,
    left: usize,
    right: usize,
    smaller_is_left: bool,
    r: Result<(), ComputeError>,
)
    requires
        call_ensures(HistArena::<H>::swap, (arena, parent, left, right, smaller_is_left), r),
        old(arena)@.wf(),
        old(arena)@.slots.len() <= usize::MAX,
        left != right,
    ensures
        r is Ok <==> old(arena)@.slots.len() >= 2 && old(arena)@.leaf_slots.contains_key(parent),
        r is Ok ==> {
            let slot = old(arena)@.leaf_slots[parent];
            let fresh = if slot + 1 == old(arena)@.slots.len() {
                0int
            } else {
                slot + 1
            };
            &&& final(arena)@.slots == old(arena)@.slots
            &&& smaller_is_left ==> final(arena)@.leaf_slots[right] == slot && final(arena)@.leaf_slots[left] == fresh
            &&& !smaller_is_left ==> final(arena)@.leaf_slots[left] == slot && final(arena)@.leaf_slots[right] == fresh
        },
{
}

/// Counting while profiling adds one to its own counter and to no other; taking a counter empties it.
pub proof fn counters_count_their_own(
    launch: &mut GrowCounters,
    sync: &mut GrowCounters,
    root: &mut GrowCounters,
    fused: &mut GrowCounters,
)
    requires
        call_ensures(grow_ledger::bump_launch, (launch, true), ()),
        call_ensures(grow_ledger::bump_sync, (sync, true), ()),
        call_ensures(grow_ledger::bump_rootbuild_u64, (root, true), ()),
        call_ensures(grow_ledger::bump_f64_fused, (fused, true), ()),
        old(launch).launches < u64::MAX,
        old(sync).syncs < u64::MAX,
        old(root).rootbuild_u64 < u64::MAX,
        old(fused).f64_fused < u64::MAX,
    ensures
        final(launch).launches == old(launch).launches + 1,
        final(launch).syncs == old(launch).syncs,
        final(launch).rootbuild_u64 == old(launch).rootbuild_u64,
        final(launch).f64_fused == old(launch).f64_fused,
        final(sync).syncs == old(sync).syncs + 1,
        final(sync).launches == old(sync).launches,
        final(sync).rootbuild_u64 == old(sync).rootbuild_u64,
        final(sync).f64_fused == old(sync).f64_fused,
        final(root).rootbuild_u64 == old(root).rootbuild_u64 + 1,
        final(root).launches == old(root).launches,
        final(root).syncs == old(root).syncs,
        final(root).f64_fused == old(root).f64_fused,
        final(fused).f64_fused == old(fused).f64_fused + 1,
        final(fused).launches == old(fused).launches,
        final(fused).syncs == old(fused).syncs,
        final(fused).rootbuild_u64 == old(fused).rootbuild_u64,
{
}

/// Taking a counter gives what it held and leaves it at zero, the others as they are.
pub proof fn taken_counters_start_over(
    launch: &mut GrowCounters,
    launches: u64,
    sync: &mut GrowCounters,
    syncs: u64,
    root: &mut GrowCounters,
    roots: u64,
    fused: &mut GrowCounters,
    fusions: u64,
)
    requires
        call_ensures(grow_ledger::on_device_launch_count_take, (launch,), launches),
        call_ensures(grow_ledger::on_device_sync_count_take, (sync,), syncs),
        call_ensures(grow_ledger::on_device_rootbuild_u64_count_take, (root,), roots),
        call_ensures(grow_ledger::on_device_f64_fused_count_take, (fused,), fusions),
    ensures
        launches == old(launch).launches && final(launch).launches == 0 && final(launch).syncs == old(launch).syncs,
        syncs == old(sync).syncs && final(sync).syncs == 0 && final(sync).launches == old(sync).launches,
        roots == old(root).rootbuild_u64 && final(root).rootbuild_u64 == 0 && final(root).f64_fused == old(
            root,
        ).f64_fused,
        fusions == old(fused).f64_fused && final(fused).f64_fused == 0 && final(fused).rootbuild_u64 == old(
            fused,
        ).rootbuild_u64,
{
}

/// A tree is added to the scores leaf by leaf: each row of a leaf gets the leaf's value on top of what it
/// had, and a row of no leaf keeps its score.
pub proof fn tree_adds_each_leaf_value<C: Copy, F: Fn(C, C) -> C>(
    scores: &mut ResidentScore<C>,
    add_to: &F,
    layout: &LeafPartitionLayout,
    leaf_values: &[C],
    r: Result<(), ComputeError>,
    l: int,
    p: int,
)
    requires
        call_ensures(ResidentScore::<C>::add_tree_on_device::<F>, (scores, add_to, layout, leaf_values), r),
        r is Ok,
        score::layout_rows_fit(*layout, old(scores)@.len()),
        layout.indices@.no_duplicates(),
        score::ranges_are_disjoint(*layout),
        0 <= l < layout.leaf_begin@.len(),
        layout.leaf_begin@[l] <= p < layout.leaf_begin@[l] + layout.leaf_count@[l],
    ensures
        final(scores)@.len() == old(scores)@.len(),
        layout.indices@[p] < old(scores)@.len(),
        call_ensures(
            *add_to,
            (old(scores)@[layout.indices@[p] as int], leaf_values@[l]),
            final(scores)@[layout.indices@[p] as int],
        ),
{
    score::tree_is_added_leaf_by_leaf(*add_to, *layout, leaf_values@, old(scores)@, final(scores)@);
    assert(score::in_leaf_range(*layout, l, p));
}

/// The sums of the root are the gradients and the hessians of all rows.
pub proof fn root_sums_are_of_all_rows<C: Copy, V: Copy, F: Fn(C, V) -> C>(
    add_to: &F,
    zero: C,
    gradients: &[V],
    hessians: &[V],
    totals: (C, C),
    amount: spec_fn(C) -> int,
    weight: spec_fn(V) -> int,
)
    requires
        call_ensures(score::root_grad_hess_fold::<C, V, F>, (add_to, zero, gradients, hessians), totals),
        sums::adds(*add_to, amount, weight),
        amount(zero) == 0,
        gradients@.len() == hessians@.len(),
    ensures
        amount(totals.0) == sums::total(gradients@, weight),
        amount(totals.1) == sums::total(hessians@, weight),
{
    let n = gradients@.len() as int;
    assert(gradients@.take(n) =~= gradients@);
    assert(hessians@.take(n) =~= hessians@);
    sums::fold_adds_the_total(*add_to, zero, gradients@, totals.0, amount, weight);
    sums::fold_adds_the_total(*add_to, zero, hessians@, totals.1, amount, weight);
}

/// A repaired histogram adds up to the sums, gradients to the first and hessians to the second.
pub proof fn repair_adds_up_to_the_sums<C: Copy, F: Fn(C, C) -> C>(
    take_off: &F,
    hist: &mut [C],
    most_freq_bin: u32,
    sum_gradient: C,
    sum_hessian: C,
    amount: spec_fn(C) -> int,
)
    requires
        call_ensures(
            hist_region::fix_histogram::<C, F>,
            (take_off, hist, most_freq_bin, sum_gradient, sum_hessian),
            (),
        ),
        sums::takes_off(*take_off, amount),
        0 < most_freq_bin < old(hist)@.len() / 2,
    ensures
        sums::side_total(final(hist)@, amount, 0, old(hist)@.len() as int / 2) == amount(sum_gradient),
        sums::side_total(final(hist)@, amount, 1, old(hist)@.len() as int / 2) == amount(sum_hessian),
{
    sums::repaired_cells_add_up_to_the_sums(
        *take_off,
        old(hist)@,
        most_freq_bin,
        sum_gradient,
        sum_hessian,
        final(hist)@,
        amount,
    );
}

/// A histogram that is built from nothing holds the gradients of each bin in its even cell and the
/// hessians in its odd cell.
pub proof fn built_histogram_holds_its_bins<C: Copy, V: Copy, F: Fn(C, V) -> C>(
    add_to: &F,
    zero: C,
    binned: &[u32],
    grad: &[V],
    hess: &[V],
    num_bin: u32,
    r: Result<Vec<C>, ComputeError>,
    amount: spec_fn(C) -> int,
    weight: spec_fn(V) -> int,
    b: int,
)
    requires
        call_ensures(
            histogram::construct_histograms_cpu::<C, V, F>,
            (add_to, zero, binned, grad, hess, num_bin),
            r,
        ),
        r is Ok,
        sums::adds(*add_to, amount, weight),
        amount(zero) == 0,
        0 <= b < num_bin,
    ensures
        r->Ok_0@.len() == 2 * num_bin,
        amount(r->Ok_0@[2 * b]) == sums::total_in_bin(binned@, grad@, weight, b),
        amount(r->Ok_0@[2 * b + 1]) == sums::total_in_bin(binned@, hess@, weight, b),
{
    sums::cells_hold_their_bins(
        *add_to,
        histogram::filled(2 * num_bin, zero),
        binned@,
        grad@,
        hess@,
        num_bin,
        r->Ok_0@,
        amount,
        weight,
        b,
    );
}

/// The labels of one class against all others are 1 for the class and -1 for every other label.
pub proof fn other_classes_are_minus_one(labels: &[Real64], class_id: Real64, out: Vec<Real64>, i: int)
    requires
        call_ensures(objective_binary::reset_ova_label_on, (labels, class_id), out),
        0 <= i < labels@.len(),
    ensures
        out@.len() == labels@.len(),
        labels@[i].spec_same(class_id) ==> out@[i].bits == 0x3ff0_0000_0000_0000,
        !labels@[i].spec_same(class_id) ==> out@[i].bits == 0xbff0_0000_0000_0000,
{
}

/// The rank of a row among the marked ones is how many marked rows stand before it.
pub proof fn prefix_sum_counts_the_marks_before(to_left: &[u32], excl: Vec<u32>, i: int)
    requires
        call_ensures(data_partition::prefix_sum_exclusive, (to_left,), excl),
        0 <= i < to_left@.len(),
    ensures
        excl@.len() == to_left@.len(),
        i == 0 ==> excl@[i] == 0,
        i > 0 ==> excl@[i] == excl@[i - 1] + (if to_left@[i - 1] == 1 {
            1int
        } else {
            0
        }),
{
    let marks = data_partition::bit_marks(to_left@);
    if i > 0 {
        stable::tally_extends(marks, i - 1, true);
        assert(excl@[i - 1] == stable::tally(marks.take(i - 1), true));
    } else {
        assert(marks.take(0).len() == 0);
    }
}

/// A column that is stored is as wide as it is asked to be, and holds each value that fits.
pub proof fn stored_column_holds_its_values(vals: &[u32], bit_type: u32, r: Result<BinColumn, ComputeError>, i: int)
    requires
        call_ensures(column_data::upload_column_buffer, (vals, bit_type), r),
        0 <= i < vals@.len(),
    ensures
        r is Ok <==> bit_type == 8 || bit_type == 16 || bit_type == 32,
        r matches Ok(column) ==> {
            &&& column.width() == bit_type
            &&& column@.len() == vals@.len()
            &&& bit_type == 8 && vals@[i] < 0x100 ==> column@[i] == vals@[i]
            &&& bit_type == 16 && vals@[i] < 0x1_0000 ==> column@[i] == vals@[i]
            &&& bit_type == 32 ==> column@[i] == vals@[i]
        },
{
}

/// The configuration of a categorical feature is that of the growth with the feature's own limits.
pub proof fn categorical_limits_are_the_feature(base: &GainConfig, f: &GrowFeature, c: GainConfig)
    requires
        call_ensures(grow_feature::categorical_feature_config, (base, f), c),
    ensures
        c.cat_l2 == f.cat_l2,
        c.cat_smooth == f.cat_smooth,
        c.max_cat_threshold == f.max_cat_threshold,
        c.max_cat_to_onehot == f.max_cat_to_onehot,
        c.min_data_per_group == f.min_data_per_group,
        c.lambda_l1 == base.lambda_l1,
        c.lambda_l2 == base.lambda_l2,
        c.min_data_in_leaf == base.min_data_in_leaf,
        c.min_sum_hessian_in_leaf == base.min_sum_hessian_in_leaf,
        c.min_gain_to_split == base.min_gain_to_split,
        c.max_delta_step == base.max_delta_step,
        c.path_smooth == base.path_smooth,
{
}

/// The categorical split of a feature is the first category set with the greatest gain. Its missing
/// values go right, and its winning bins are the places of the set, moved by the offset.
pub proof fn categorical_search_takes_the_greatest_gain(
    candidates: &[CategoryCandidate],
    num_bin: i32,
    offset: i32,
    r: Result<CategoricalSplit, ComputeError>,
    k: int,
) -> (w: int)
    requires
        call_ensures(categorical_split::find_best_threshold_categorical, (candidates, num_bin, offset), r),
        categorical_split::positions_in_range(candidates@, num_bin, offset),
        0 <= k < candidates@.len(),
        forall|i: int| 0 <= i < candidates@.len() ==> !(#[trigger] candidates@[i]).split.gain.spec_is_nan(),
        candidates@[k].split.gain.spec_above(Real64::spec_neg_infinity()),
    ensures
        r is Ok,
        0 <= w < candidates@.len(),
        !candidates@[k].split.gain.spec_above(candidates@[w].split.gain),
        !candidates@[w].split.gain.spec_above(candidates@[k].split.gain) ==> w <= k,
        r->Ok_0.split.gain == candidates@[w].split.gain,
        !r->Ok_0.split.default_left,
        r->Ok_0.split.left_output == candidates@[w].split.left_output,
        r->Ok_0.split.right_output == candidates@[w].split.right_output,
        r->Ok_0.split.left_sum_gradient == candidates@[w].split.left_sum_gradient,
        r->Ok_0.split.right_sum_gradient == candidates@[w].split.right_sum_gradient,
        r->Ok_0.split.left_sum_hessian == candidates@[w].split.left_sum_hessian,
        r->Ok_0.split.right_sum_hessian == candidates@[w].split.right_sum_hessian,
        r->Ok_0.split.left_count == candidates@[w].split.left_count,
        r->Ok_0.split.right_count == candidates@[w].split.right_count,
        r->Ok_0.cat_threshold@.len() == candidates@[w].positions@.len(),
        forall|j: int|
            0 <= j < candidates@[w].positions@.len() ==> #[trigger] r->Ok_0.cat_threshold@[j]
                == candidates@[w].positions@[j] + offset,
{
    let n = candidates@.len() as int;
    let w = categorical_split::best_candidate(candidates@, n);
    categorical_split::best_candidate_is_the_first_of_the_greatest(candidates@, n);
    assert(candidates@[k] == candidates@[k]);
    assert forall|j: int| 0 <= j < candidates@[w].positions@.len() implies #[trigger] r->Ok_0.cat_threshold@[j]
        == candidates@[w].positions@[j] + offset by {
        assert(1 <= candidates@[w].positions@[j] + offset < num_bin);
    }
    w
}

} // verus!
