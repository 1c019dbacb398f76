//! What further operations give back: starts, plans, copies and passes.
use crate::bin_column::BinColumn;
use crate::error::{ComputeError, Fault};
use crate::gain::{GainConfig, SplitInfo};
use crate::kernels::column_data;
use crate::kernels::copy_subrow;
use crate::kernels::data_partition::NumericRoute;
use crate::kernels::fix_compact;
use crate::kernels::fused_scan;
use crate::kernels::fused_scan::ScanPlan;
use crate::kernels::grow_driver;
use crate::kernels::grow_driver::{GrowDriver, ShownNumber, SplitWork};
use crate::kernels::grow_feature;
use crate::kernels::grow_feature::{BatchedSplitFeature, GrowFeature};
use crate::kernels::grow_resident;
use crate::kernels::grow_resident::{DeviceStep, ResidentGrow};
use crate::kernels::leaf_histogram;
use crate::kernels::leaf_map;
use crate::kernels::leaf_map::{LeafMapBufferStrategy, LeafMapStep};
use crate::kernels::objective_binary;
use crate::kernels::partition;
use crate::kernels::partition::{DeviceLeafSplits, ResidentPermPartition};
use crate::kernels::resident_build;
use crate::kernels::resident_machine::{ResidentAction, ResidentEvent, ResidentMachine};
use crate::kernels::row_partition;
use crate::kernels::row_partition::GroupChoice;
use crate::kernels::split_info::SplitScalars;
use crate::laws::growth;
use crate::laws::histograms;
use crate::laws::numbers;
use crate::laws::refusals;
use crate::laws::routing;
use crate::laws::rows;
use crate::laws::sums;
use crate::number::Real64;
use vstd::prelude::*;

verus! {

/// A growth starts with one leaf that holds all rows in order, with the sums of the root, at depth zero.
pub proof fn growth_starts_with_all_rows(
    num_leaves: i32,
    max_depth: i32,
    min_data: i32,
    num_data: usize,
    num_features: usize,
    sum_g: &ShownNumber,
    sum_h: &ShownNumber,
    r: Result<GrowDriver, ComputeError>,
    i: int,
)
    requires
        call_ensures(
            GrowDriver::start,
            (num_leaves, max_depth, min_data, num_data, num_features, sum_g, sum_h),
            r,
        ),
        num_data <= u32::MAX,
        0 <= i < num_data,
    ensures
        r is Ok <==> sum_g.value.spec_is_finite() && sum_h.value.spec_is_finite(),
        r matches Ok(d) ==> {
            &&& d@.leaves.len() == 1
            &&& d@.leaves[0].rows.len() == num_data
            &&& d@.leaves[0].rows[i] == i
            &&& d@.leaves[0].sum_g == sum_g.value
            &&& d@.leaves[0].sum_h == sum_h.value
            &&& d@.leaves[0].depth == 0
            &&& d@.leaves[0].best_fpos == -1
            &&& d@.num_leaves == num_leaves
            &&& d@.max_depth == max_depth
            &&& d@.min_data_in_leaf == min_data
            &&& d@.num_features == num_features
        },
{
    if r is Ok {
        assert(r->Ok_0@.leaves.len() == 1);
    }
}

/// The same of a growth over resident buffers, whose root takes slot 0.
pub proof fn resident_growth_starts_with_all_rows(
    num_leaves: i32,
    max_depth: i32,
    min_data: i32,
    num_data: usize,
    sum_g: &ShownNumber,
    sum_h: &ShownNumber,
    r: Result<ResidentGrow, ComputeError>,
    i: int,
)
    requires
        call_ensures(ResidentGrow::start, (num_leaves, max_depth, min_data, num_data, sum_g, sum_h), r),
        num_data <= u32::MAX,
        0 <= i < num_data,
    ensures
        r is Ok <==> sum_g.value.spec_is_finite() && sum_h.value.spec_is_finite(),
        r matches Ok(g) ==> {
            &&& g@.perm.len() == num_data
            &&& g@.perm[i] == i
            &&& g@.leaves.len() == 1
            &&& g@.leaves[0].row_begin == 0
            &&& g@.leaves[0].row_count == num_data
            &&& g@.leaves[0].sum_g == sum_g.value
            &&& g@.leaves[0].sum_h == sum_h.value
            &&& g@.leaves[0].slot == 0
            &&& g@.leaves[0].depth == 0
            &&& g@.num_leaves == num_leaves
            &&& g@.max_depth == max_depth
            &&& g@.min_data_in_leaf == min_data
        },
{
    if r is Ok {
        assert(r->Ok_0@.leaves.len() == 1);
    }
}

/// The leaf that a growth splits next has a gain above zero, and no leaf has a greater one; there is none
/// where the tree has all its leaves.
pub proof fn next_split_is_of_the_greatest_gain(
    driver: &GrowDriver,
    features: &[GrowFeature],
    r: Option<usize>,
    k: int,
)
    requires
        call_ensures(GrowDriver::next_split, (driver, features), r),
        driver@.wf(),
        features@.len() == driver@.num_features,
        0 <= k < driver@.leaves.len(),
        forall|i: int| 0 <= i < driver@.leaves.len() ==> !(#[trigger] driver@.leaves[i]).best.gain.spec_is_nan(),
        forall|i: int|
            0 <= i < driver@.leaves.len() && (#[trigger] driver@.leaves[i]).best_fpos == -1
                ==> !driver@.leaves[i].best.gain.spec_above(Real64::spec_zero()),
        forall|f: int| 0 <= f < features@.len() ==> 0 <= (#[trigger] features@[f]).real_feature_index < i32::MAX,
    ensures
        driver@.leaves.len() >= driver@.num_leaves ==> r is None,
        driver@.leaves.len() < driver@.num_leaves && r is None ==> !driver@.leaves[k].best.gain.spec_above(
            Real64::spec_zero(),
        ),
        r matches Some(w) ==> {
            &&& w < driver@.leaves.len()
            &&& driver@.leaves[w as int].best.gain.spec_above(Real64::spec_zero())
            &&& !driver@.leaves[k].best.gain.spec_above(driver@.leaves[w as int].best.gain)
        },
{
    let reals = grow_feature::real_indices(features@);
    assert forall|f: int| 0 <= f < reals.len() implies 0 <= #[trigger] reals[f] < i32::MAX by {
        assert(0 <= features@[f].real_feature_index < i32::MAX);
    }
    growth::next_leaf_has_the_greatest_gain(driver@.leaves, reals, k);
}

/// Among the splits of a leaf's features the one with the greatest gain wins, features with a bin of their
/// own for not-a-number left out; without any, the answer is no split.
pub proof fn best_of_the_splits_wins(
    splits: &[SplitInfo],
    feats: &[BatchedSplitFeature],
    features: &[GrowFeature],
    r: (SplitInfo, i32),
    k: int,
)
    requires
        call_ensures(grow_feature::argmax_over_splits, (splits, feats, features), r),
        splits@.len() == feats@.len(),
        splits@.len() == features@.len(),
        splits@.len() <= i32::MAX,
        0 <= k < splits@.len(),
        forall|i: int| 0 <= i < splits@.len() ==> !(#[trigger] splits@[i]).gain.spec_is_nan(),
        forall|i: int| 0 <= i < features@.len() ==> 0 <= (#[trigger] features@[i]).real_feature_index < i32::MAX,
    ensures
        r.1 >= 0 ==> r.1 < splits@.len() && r.0 == splits@[r.1 as int] && !feats@[r.1 as int].na_as_missing,
        r.1 >= 0 && !feats@[k].na_as_missing ==> !splits@[k].gain.spec_above(r.0.gain),
        r.1 < 0 ==> r.1 == -1 && !r.0.gain.spec_above(Real64::spec_neg_infinity()),
        r.1 < 0 && !feats@[k].na_as_missing ==> !splits@[k].gain.spec_above(Real64::spec_neg_infinity()),
{
    let reals = grow_feature::real_indices(features@);
    let skips = grow_feature::na_flags(feats@);
    assert forall|i: int| 0 <= i < splits@.len() implies 0 <= #[trigger] reals[i] < i32::MAX by {
        assert(0 <= features@[i].real_feature_index < i32::MAX);
    }
    growth::winner_has_the_greatest_gain(splits@, skips, reals, splits@.len() as int, k);
}

/// No split has no gain, no rows and no sums, and its missing values go left.
pub proof fn no_split_is_empty(s: SplitInfo)
    requires
        call_ensures(SplitInfo::none, (), s),
    ensures
        !s.gain.spec_above(Real64::spec_neg_infinity()),
        !s.gain.spec_is_nan(),
        s.default_left,
        s.threshold == 0,
        s.left_count == 0 && s.right_count == 0,
        s.left_output.bits == 0 && s.right_output.bits == 0,
        s.left_sum_gradient.bits == 0 && s.left_sum_hessian.bits == 0,
        s.right_sum_gradient.bits == 0 && s.right_sum_hessian.bits == 0,
        !SplitScalars::spec_empty().is_valid,
        SplitScalars::spec_empty().left_value.bits == 0 && SplitScalars::spec_empty().right_value.bits == 0,
        SplitScalars::spec_empty().left_count == 0 && SplitScalars::spec_empty().right_count == 0,
{
}

/// A bag holds the rows whose draw is below the fraction first, in ascending order, and then the others in
/// descending order.
pub proof fn drawn_rows_come_first(
    num_data: i32,
    draws: &[Real64],
    fraction: Real64,
    bag: Vec<i32>,
    p: int,
    q: int,
)
    requires
        call_ensures(copy_subrow::bagging_draw_on, (num_data, draws, fraction), bag),
        num_data <= draws@.len(),
        0 <= p < q < num_data,
    ensures
        bag@.len() == num_data,
        0 <= bag@[p] < num_data,
        fraction.spec_above(draws@[bag@[q] as int]) ==> fraction.spec_above(draws@[bag@[p] as int]) && bag@[p]
            < bag@[q],
        !fraction.spec_above(draws@[bag@[p] as int]) ==> !fraction.spec_above(draws@[bag@[q] as int]) && bag@[p]
            > bag@[q],
{
    rows::bag_sets_drawn_rows_first(draws@, num_data as int, fraction, p, q);
}

/// Each block of 1024 rows gets a seed, counted up from the bagging seed.
pub proof fn seeds_count_up(num_data: i32, seed: i32, seeds: Vec<u32>, b: int)
    requires
        call_ensures(copy_subrow::bagging_seeds, (num_data, seed), seeds),
        0 <= seed,
        0 <= b < seeds@.len(),
        seed + b <= i32::MAX,
    ensures
        num_data > 0,
        1024 * (seeds@.len() - 1) < num_data <= 1024 * seeds@.len(),
        seeds@[b] == seed + b,
{
    rows::draws_come_in_blocks(num_data);
}

/// A copy of some rows of a column is as wide as the column and holds the entries of those rows.
pub proof fn row_copy_holds_the_rows(
    column: &BinColumn,
    used: &[i32],
    num_data: usize,
    r: Result<BinColumn, ComputeError>,
    i: int,
)
    requires
        call_ensures(copy_subrow::copy_subrow_on, (column, used, num_data), r),
        r is Ok,
        0 <= i < used@.len(),
    ensures
        r->Ok_0@.len() == used@.len(),
        r->Ok_0@[i] == column@[used@[i] as int],
        r->Ok_0.width() == column.width(),
{
}

/// Splitting a span of the resident rows sets those first whose bin goes left, the bin being read from the
/// column at its offset, stores both ranges, and leaves every other row alone.
pub proof fn resident_span_sets_left_rows_first(
    perm: &mut ResidentPermPartition,
    bins: &BinColumn,
    col_off: usize,
    num_bin: u32,
    route: NumericRoute,
    table: &mut DeviceLeafSplits,
    leaf_id: usize,
    begin: i32,
    count: i32,
    fuse_bc: bool,
    r: Result<(), ComputeError>,
    p: int,
)
    requires
        call_ensures(
            ResidentPermPartition::partition_leaf,
            (
                perm,
                bins,
                col_off,
                num_bin,
                route.min_bin,
                route.max_bin,
                route.default_bin,
                route.most_freq_bin,
                route.missing_type,
                route.default_left,
                route.threshold,
                table,
                leaf_id,
                begin,
                count,
                fuse_bc,
            ),
            r,
        ),
        r is Ok,
        0 <= p < count,
    ensures
        ({
            let ranges = final(table)@[leaf_id as int];
            &&& final(perm)@.len() == old(perm)@.len()
            &&& p < ranges.left_count <==> route.goes_left(bins@[col_off + final(perm)@[begin + p]])
            &&& ranges.left_start == begin
            &&& ranges.left_end == begin + ranges.left_count
            &&& ranges.right_start == ranges.left_end
            &&& ranges.right_end == begin + count
            &&& ranges.left_count + ranges.right_count == count
        }),
        forall|k: int|
            0 <= k < old(perm)@.len() && (k < begin || k >= begin + count) ==> #[trigger] final(perm)@[k] == old(
                perm,
            )@[k],
{
    let rows = old(perm)@.subrange(begin as int, begin + count);
    let own = partition::column_bins(bins@, col_off as int, rows);
    refusals::resident_partition_accepts(
        num_bin,
        route.threshold,
        leaf_id,
        old(table)@.len(),
        begin,
        count,
        old(perm)@.len(),
        col_off,
        bins@.len(),
    );
    assert(route == (NumericRoute {
        min_bin: route.min_bin,
        max_bin: route.max_bin,
        default_bin: route.default_bin,
        most_freq_bin: route.most_freq_bin,
        missing_type: route.missing_type,
        default_left: route.default_left,
        threshold: route.threshold,
    }));
    let i = routing::span_sets_left_rows_first(old(perm)@, final(perm)@, begin as int, rows, own, route, p);
    routing::tally_is_the_count(route.marks(own), true);
}

/// A plain partition of all rows holds the row numbers that go left first, each side in ascending order.
pub proof fn plain_partition_sets_left_rows_first(
    bins: &[u32],
    num_bin: u32,
    min_bin: u32,
    max_bin: u32,
    threshold: u32,
    most_freq_bin: u32,
    r: Result<(Vec<u32>, usize), ComputeError>,
    i: int,
    j: int,
) -> (at: (int, int))
    requires
        call_ensures(
            partition::data_partition_cpu_native,
            (bins, num_bin, min_bin, max_bin, threshold, most_freq_bin),
            r,
        ),
        r is Ok,
        bins@.len() <= u32::MAX,
        0 <= i < j < bins@.len(),
    ensures
        ({
            let left = |k: int|
                partition::plain_goes_left(
                    bins@[k] as i32 as int,
                    min_bin as i32 as int,
                    max_bin as i32 as int,
                    threshold as i32 as int,
                    most_freq_bin as i32 as int,
                );
            &&& r->Ok_0.0@[at.0] == i
            &&& r->Ok_0.0@[at.1] == j
            &&& at.0 < r->Ok_0.1 <==> left(i)
            &&& at.1 < r->Ok_0.1 <==> left(j)
            &&& left(i) == left(j) ==> at.0 < at.1
        }),
{
    let marks = partition::plain_marks(bins@, min_bin, max_bin, threshold, most_freq_bin);
    routing::tally_is_the_count(marks, true);
    routing::marked_items_come_first(partition::row_ids(bins@.len()), marks, i, j)
}

/// After the splits of a tree a row is in the leaf that its last split sent it to, and a row that no split
/// names is in the first leaf.
pub proof fn leaf_map_follows_the_last_split(
    num_data: usize,
    init_leaf: i32,
    steps: &[LeafMapStep<'_>],
    strategy: LeafMapBufferStrategy,
    r: Result<Vec<i32>, ComputeError>,
    k: int,
    i: int,
)
    requires
        call_ensures(leaf_map::build_leaf_map_on, (num_data, init_leaf, steps, strategy), r),
        r is Ok,
        0 <= k < steps@.len(),
        forall|s: int| 0 <= s < steps@.len() ==> rows::step_fits(#[trigger] steps@[s], num_data as int),
        0 <= i < steps@[k].data_indices@.len(),
        forall|s: int, j: int|
            k < s < steps@.len() && 0 <= j < steps@[s].data_indices@.len() ==> #[trigger] steps@[s].data_indices@[j]
                != steps@[k].data_indices@[i],
    ensures
        r->Ok_0@.len() == num_data,
        r->Ok_0@[steps@[k].data_indices@[i] as int] == (if steps@[k].to_left@[i] == 1 {
            steps@[k].left_leaf
        } else {
            steps@[k].right_leaf
        }),
{
    let init = Seq::new(num_data as nat, |row: int| init_leaf);
    rows::last_split_of_a_row_decides(init, steps@, steps@.len() as int, k, i);
}

/// A leaf map is refused for the first step whose rows are, and only for such a step.
pub proof fn leaf_map_steps_accept(steps: Seq<LeafMapStep<'_>>, num_data: usize, from: int)
    requires
        0 <= from,
    ensures
        leaf_map::steps_fault(steps, num_data, from) is None <==> forall|s: int|
            from <= s < steps.len() ==> step_is_accepted(#[trigger] steps[s], num_data),
    decreases steps.len() - from,
{
    if from < steps.len() {
        leaf_map_steps_accept(steps, num_data, from + 1);
        refusals::leaf_map_accepts(steps[from].data_indices@, steps[from].to_left@, num_data);
    }
}

/// A step has a mark for each of its rows, and every row is one of the data.
pub open spec fn step_is_accepted(step: LeafMapStep<'_>, num_data: usize) -> bool {
    &&& step.data_indices@.len() == step.to_left@.len()
    &&& forall|i: int| 0 <= i < step.data_indices@.len() ==> #[trigger] step.data_indices@[i] < num_data
}

/// Columns are stored exactly where each one has a description, and their sizes can be held.
pub proof fn column_store_accepts(columns: Seq<BinColumn>, metas: nat, from: int)
    requires
        0 <= from,
        forall|c: int| 0 <= c < columns.len() ==> 4 * (#[trigger] columns[c])@.len() <= usize::MAX,
    ensures
        column_data::first_column_fault(columns, from) is None,
        column_data::store_fault(columns, metas) is None <==> metas == columns.len(),
        metas != columns.len() ==> column_data::store_fault(columns, metas) == Some(
            Fault::LengthMismatch { expected: columns.len(), actual: metas },
        ),
    decreases columns.len() - from,
{
    if from < columns.len() {
        column_store_accepts(columns, metas, from + 1);
        one_column_fits(columns[from]);
    }
    if from > 0 {
        no_column_is_refused(columns, 0);
    }
}

proof fn one_column_fits(column: BinColumn)
    requires
        4 * column@.len() <= usize::MAX,
    ensures
        column@.len() * (column.width() / 8) <= usize::MAX,
{
    let bytes = column.width() / 8;
    assert(bytes == 1 || bytes == 2 || bytes == 4);
    assert(column@.len() * bytes <= 4 * column@.len()) by (nonlinear_arith)
        requires
            bytes <= 4,
    ;
}

proof fn no_column_is_refused(columns: Seq<BinColumn>, from: int)
    requires
        0 <= from,
        forall|c: int| 0 <= c < columns.len() ==> 4 * (#[trigger] columns[c])@.len() <= usize::MAX,
    ensures
        column_data::first_column_fault(columns, from) is None,
    decreases columns.len() - from,
{
    if from < columns.len() {
        no_column_is_refused(columns, from + 1);
        one_column_fits(columns[from]);
    }
}

/// A scan pass over a leaf without rows or features gives zeros and no plan. Any other pass is carried out
/// exactly where it is accepted, and gives a plan.
pub proof fn empty_pass_gives_zeros<C: Copy, V: Copy, A: Fn(C, V) -> C>(
    add_to: &A,
    zero: C,
    bins: &BinColumn,
    num_features: usize,
    stride: usize,
    slot_len: usize,
    rows: &[u32],
    gradients: &[V],
    hessians: &[V],
    feats: &[BatchedSplitFeature],
    active: &[bool],
    cfg: &GainConfig,
    sum_hessian: Real64,
    r: Result<(Vec<C>, Option<ScanPlan>), ComputeError>,
    c: int,
)
    requires
        call_ensures(
            fused_scan::build_fix_scan_resident_f64_on::<C, V, A>,
            (
                add_to,
                zero,
                bins,
                num_features,
                stride,
                slot_len,
                rows,
                gradients,
                hessians,
                feats,
                active,
                cfg,
                sum_hessian,
            ),
            r,
        ),
        0 <= c < slot_len,
    ensures
        rows@.len() == 0 || feats@.len() == 0 || num_features == 0 ==> r is Ok && r->Ok_0.1 is None
            && r->Ok_0.0@.len() == slot_len && r->Ok_0.0@[c] == zero,
        rows@.len() > 0 && feats@.len() > 0 && num_features > 0 ==> (r is Ok <==> fused_scan::scan_fault(
            feats@,
            active@,
            slot_len,
            *cfg,
            sum_hessian,
        ) is None),
        rows@.len() > 0 && feats@.len() > 0 && num_features > 0 && r is Ok ==> r->Ok_0.1 is Some,
{
}

/// The histogram of a scan pass holds in every cell the sum of the leaf's rows in its bin, gradients in
/// even cells and hessians in odd ones, where the regions stand one behind the other.
pub proof fn scan_pass_holds_its_rows<C: Copy, V: Copy, A: Fn(C, V) -> C>(
    add_to: &A,
    zero: C,
    bins: &BinColumn,
    num_features: usize,
    stride: usize,
    slot_len: usize,
    rows: &[u32],
    gradients: &[V],
    hessians: &[V],
    feats: &[BatchedSplitFeature],
    active: &[bool],
    cfg: &GainConfig,
    sum_hessian: Real64,
    r: Result<(Vec<C>, Option<ScanPlan>), ComputeError>,
    amount: spec_fn(C) -> int,
    weight: spec_fn(V) -> int,
    i: int,
    b: int,
)
    requires
        call_ensures(
            fused_scan::build_fix_scan_resident_f64_on::<C, V, A>,
            (
                add_to,
                zero,
                bins,
                num_features,
                stride,
                slot_len,
                rows,
                gradients,
                hessians,
                feats,
                active,
                cfg,
                sum_hessian,
            ),
            r,
        ),
        r is Ok,
        rows@.len() > 0,
        num_features > 0,
        forall|k: int, j: int|
            0 <= k < j < feats@.len() ==> (#[trigger] feats@[k]).slot_off + 2 * feats@[k].num_bin <= (
            #[trigger] feats@[j]).slot_off,
        sums::adds(*add_to, amount, weight),
        amount(zero) == 0,
        0 <= i < feats@.len(),
        0 <= i * stride,
        i * stride + stride <= bins@.len(),
        forall|k: int| 0 <= k < rows@.len() ==> #[trigger] rows@[k] < stride,
        0 <= feats@[i].offset <= b < feats@[i].num_bin,
    ensures
        amount(r->Ok_0.0@[feats@[i].slot_off + 2 * (b - feats@[i].offset)]) == sums::rows_in_bin(
            rows@,
            histograms::feature_column(bins@, stride as int, i),
            gradients@,
            weight,
            b,
        ),
        amount(r->Ok_0.0@[feats@[i].slot_off + 2 * (b - feats@[i].offset) + 1]) == sums::rows_in_bin(
            rows@,
            histograms::feature_column(bins@, stride as int, i),
            hessians@,
            weight,
            b,
        ),
{
    refusals::scan_pass_accepts(feats@, active@, slot_len, *cfg, sum_hessian);
    assert(fused_scan::scan_regions_fit(feats@, slot_len as nat));
    histograms::scan_cell_is_the_sum_of_its_rows(
        *add_to,
        zero,
        bins@,
        stride as int,
        rows@,
        gradients@,
        hessians@,
        feats@,
        slot_len,
        r->Ok_0.0@,
        amount,
        weight,
        i,
        b,
    );
}

/// A resident growth builds the root first. Its winner is stored in the frontier, and then the frontier
/// picks as long as there is room for a leaf.
pub proof fn resident_growth_seeds_then_picks(
    machine: &mut ResidentMachine,
    features: &[GrowFeature],
    event: ResidentEvent,
    r: Result<ResidentAction, ComputeError>,
)
    requires
        call_ensures(ResidentMachine::advance, (machine, features, event), r),
        features@.len() <= i32::MAX,
    ensures
        old(machine).spec_phase() is Root ==> (event matches ResidentEvent::RootScanned { best, best_fpos } ==> {
            &&& r is Ok
            &&& r->Ok_0 matches ResidentAction::Seed { leaf, record } && {
                &&& leaf == 0
                &&& record.leaf_index == 0
                &&& record.is_valid <==> best.gain.spec_above(Real64::spec_neg_infinity())
                &&& record.gain == best.gain
                &&& record.left_value == best.left_output
                &&& record.right_value == best.right_output
                &&& record.left_sum_hessians == best.left_sum_hessian
                &&& record.right_sum_hessians == best.right_sum_hessian
                &&& 0 <= best_fpos < features@.len() ==> record.inner_feature_index
                    == features@[best_fpos as int].real_feature_index
            }
            &&& final(machine).state() == old(machine).state()
        }),
        old(machine).spec_phase() is RootSeed || old(machine).spec_phase() is Split ==> {
            &&& r is Ok
            &&& final(machine).state() == old(machine).state()
            &&& old(machine).state().leaves.len() < old(machine).state().num_leaves ==> (
            r->Ok_0 matches ResidentAction::Pick { prev_smaller, prev_larger, leaves } && prev_smaller == old(
                machine,
            ).filled().0 && prev_larger == old(machine).filled().1 && leaves == old(machine).state().leaves.len() as usize)
            &&& old(machine).state().leaves.len() >= old(machine).state().num_leaves ==> r->Ok_0 is Finish
        },
{
}

/// Twice the smallest number of rows stays within the range of a count.
pub proof fn doubled_rows_stay_in_range(min_data: i32, d: i32)
    requires
        call_ensures(grow_driver::doubled_min_data, (min_data,), d),
    ensures
        i32::MIN <= min_data + min_data <= i32::MAX ==> d == min_data + min_data,
        min_data + min_data > i32::MAX ==> d == i32::MAX,
        min_data + min_data < i32::MIN ==> d == i32::MIN,
{
}

/// The largest magnitude among the values of some rows is that of one of them, or zero.
pub proof fn largest_magnitude_is_of_a_row(
    gradients: &[Real64],
    hessians: &[Real64],
    rows: &[u32],
    m: Real64,
    k: int,
)
    requires
        call_ensures(resident_build::largest_magnitude, (gradients, hessians, rows), m),
        0 <= k < rows@.len(),
        !gradients@[rows@[k] as int].spec_is_nan(),
        !hessians@[rows@[k] as int].spec_is_nan(),
    ensures
        gradients@[rows@[k] as int].magnitude() <= m.bits,
        hessians@[rows@[k] as int].magnitude() <= m.bits,
        m.bits == 0 || exists|i: int|
            0 <= i < rows@.len() && (gradients@[#[trigger] rows@[i] as int].magnitude() == m.bits
                || hessians@[rows@[i] as int].magnitude() == m.bits),
{
    let g = leaf_histogram::picked(gradients@, rows@);
    let h = leaf_histogram::picked(hessians@, rows@);
    assert(g[k] == gradients@[rows@[k] as int]);
    assert(h[k] == hessians@[rows@[k] as int]);
    if resident_build::reaches_magnitude(g, m) {
        let i = choose|i: int| 0 <= i < g.len() && !(#[trigger] g[i]).spec_is_nan() && g[i].magnitude() == m.bits;
        assert(gradients@[rows@[i] as int].magnitude() == m.bits);
    }
    if resident_build::reaches_magnitude(h, m) {
        let i = choose|i: int| 0 <= i < h.len() && !(#[trigger] h[i]).spec_is_nan() && h[i].magnitude() == m.bits;
        assert(hessians@[rows@[i] as int].magnitude() == m.bits);
    }
}

/// A spill buffer has two cells for each bin of each group.
pub proof fn spill_buffer_has_two_cells_per_bin(groups: usize, bins: usize, r: Result<usize, ComputeError>)
    requires
        call_ensures(resident_build::spill_cells, (groups, bins), r),
    ensures
        r is Ok <==> groups > 0 && bins > 0 && groups * bins * 2 <= usize::MAX,
        r matches Ok(cells) ==> cells == groups * bins * 2,
{
    assert(groups == 0 || bins == 0 ==> groups * bins * 2 == 0) by (nonlinear_arith);
}

/// The gradients of rows with weights are the responses times the weight of the class and the weight of
/// the row, the second class weight being that of the positive labels.
pub proof fn gradients_are_weighted_responses<C: Copy, R: Fn(C, bool) -> C, H: Fn(C) -> C, M: Fn(C, C) -> C>(
    respond: &R,
    curve: &H,
    times: &M,
    scores: &[C],
    labels: &[Real64],
    weights: &[C],
    class_weights: (C, C),
    r: Result<(Vec<C>, Vec<C>), ComputeError>,
    response: spec_fn(C, bool) -> C,
    curvature: spec_fn(C) -> C,
    product: spec_fn(C, C) -> C,
    i: int,
)
    requires
        call_ensures(
            objective_binary::get_gradients_on::<C, R, H, M>,
            (respond, curve, times, scores, labels, Some(weights), Some(class_weights)),
            r,
        ),
        forall|c: C, positive: bool, v: C| #[trigger]
            call_ensures(*respond, (c, positive), v) ==> v == response(c, positive),
        forall|c: C, v: C| #[trigger] call_ensures(*curve, (c,), v) ==> v == curvature(c),
        forall|a: C, b: C, v: C| #[trigger] call_ensures(*times, (a, b), v) ==> v == product(a, b),
        0 <= i < scores@.len(),
    ensures
        r is Ok <==> labels@.len() == scores@.len() && weights@.len() == scores@.len(),
        r is Ok ==> {
            let positive = labels@[i].spec_above(Real64::spec_zero());
            let class = if positive {
                class_weights.1
            } else {
                class_weights.0
            };
            let answer = response(scores@[i], positive);
            &&& r->Ok_0.0@.len() == scores@.len()
            &&& r->Ok_0.1@.len() == scores@.len()
            &&& r->Ok_0.0@[i] == product(product(answer, class), weights@[i])
            &&& r->Ok_0.1@[i] == product(product(curvature(answer), class), weights@[i])
        },
{
    if r is Ok {
        let g = r->Ok_0.0@[i];
        rows::gradient_is_the_weighted_response(
            *respond,
            *curve,
            *times,
            scores@[i],
            labels@[i],
            class_weights,
            weights@[i],
            g,
            r->Ok_0.1@[i],
            response,
            curvature,
            product,
        );
    }
}

/// The starting score of no rows is zero; else it is made of the weight of the positive rows and that of
/// all rows, in this order.
pub proof fn starting_score_is_of_the_weights<C: Copy, A: Fn(C, C) -> C, F: Fn(C, C) -> C>(
    plus: &A,
    finish: &F,
    one: C,
    zero: C,
    count: C,
    labels: &[Real64],
    weights: &[C],
    r: Result<C, ComputeError>,
    amount: spec_fn(C) -> int,
) -> (parts: (C, C))
    requires
        call_ensures(
            objective_binary::boost_from_score_on::<C, A, F>,
            (plus, finish, one, zero, count, labels, Some(weights)),
            r,
        ),
        sums::adds(*plus, amount, amount),
        amount(zero) == 0,
    ensures
        labels@.len() == 0 ==> r is Ok && r->Ok_0 == zero,
        labels@.len() > 0 ==> (r is Ok <==> weights@.len() == labels@.len()),
        labels@.len() > 0 && r is Ok ==> {
            &&& amount(parts.0) == rows::positive_weight(labels@, weights@, amount)
            &&& amount(parts.1) == sums::total(weights@, amount)
            &&& call_ensures(*finish, parts, r->Ok_0)
        },
{
    if labels@.len() > 0 && r is Ok {
        rows::starting_score_is_of_the_positive_weight(
            *plus,
            *finish,
            one,
            zero,
            count,
            labels@,
            weights@,
            r->Ok_0,
            amount,
        )
    } else {
        (zero, zero)
    }
}

/// Repairing the regions of a histogram makes each repaired region add up to the sums, gradients to the
/// first and hessians to the second, where the regions stand one behind the other.
pub proof fn region_repair_adds_up_to_the_sums<C: Copy, S: Fn(C, C) -> C>(
    take_off: &S,
    hist: &[C],
    feats: &[(usize, u32, u32)],
    sum_gradient: C,
    sum_hessian: C,
    r: Result<Vec<C>, ComputeError>,
    amount: spec_fn(C) -> int,
    i: int,
)
    requires
        call_ensures(
            fix_compact::fix_histogram_mfb_on::<C, S>,
            (take_off, hist, feats, sum_gradient, sum_hessian),
            r,
        ),
        r is Ok,
        hist@.len() <= usize::MAX,
        forall|k: int, j: int|
            0 <= k < j < feats@.len() ==> (#[trigger] feats@[k]).0 + 2 * feats@[k].1 <= (#[trigger] feats@[j]).0,
        sums::takes_off(*take_off, amount),
        0 <= i < feats@.len(),
        0 < feats@[i].2 < feats@[i].1,
    ensures
        histograms::region_total(r->Ok_0@, feats@[i].0 as int, amount, 0, feats@[i].1 as int) == amount(
            sum_gradient,
        ),
        histograms::region_total(r->Ok_0@, feats@[i].0 as int, amount, 1, feats@[i].1 as int) == amount(
            sum_hessian,
        ),
{
    refusals::repair_accepts(feats@, hist@.len(), 0);
    histograms::repaired_regions_add_up_to_the_sums(
        *take_off,
        hist@,
        feats@,
        sum_gradient,
        sum_hessian,
        r->Ok_0@,
        amount,
        i,
    );
}

/// The groups of a build are the forced number where one is forced, the tuned one where tuning is on and
/// the gradients are not resident, and the computed one else.
pub proof fn groups_are_forced_tuned_or_computed(
    choice: &GroupChoice<'_>,
    leaf_rows: usize,
    num_features: usize,
    max_w: u32,
    fixed_point: bool,
    resident_gh: bool,
    groups: Option<u32>,
)
    requires
        call_ensures(
            row_partition::planned_groups,
            (choice, leaf_rows, num_features, max_w, fixed_point, resident_gh),
            groups,
        ),
        choice.min_setting is None,
    ensures
        groups is None <==> max_w > 512,
        groups is Some && choice.forced is Some ==> groups->0 == choice.forced->0,
        groups is Some && choice.forced is None && choice.autotune_on && !resident_gh ==> groups->0 == choice.tuned,
        groups is Some && choice.forced is None && (!choice.autotune_on || resident_gh) && leaf_rows < 256_000
            ==> groups->0 == 1,
        groups is Some && choice.forced is None && (!choice.autotune_on || resident_gh) && groups->0 > 1
            ==> groups->0 * num_features <= choice.target,
{
    numbers::groups_fill_the_target(num_features as int, leaf_rows as int, 256_000, choice.target as int);
}

/// A column of bins takes one byte per row for up to 256 bins, two for up to 65536 and four else, and
/// holds the bins of its feature as they are.
pub proof fn column_keeps_its_bins(bins: Vec<u32>, num_bin: u32, column: BinColumn, i: int)
    requires
        call_ensures(BinColumn::new, (bins, num_bin), column),
        0 <= i < bins@.len(),
        bins@[i] < num_bin,
    ensures
        column@.len() == bins@.len(),
        column@[i] == bins@[i],
        num_bin <= 256 <==> column.width() == 8,
        256 < num_bin <= 65536 <==> column.width() == 16,
        65536 < num_bin <==> column.width() == 32,
{
    assert(bins@[i] as int % crate::bin_column::column_capacity(num_bin) == bins@[i]) by (nonlinear_arith)
        requires
            0 <= bins@[i] < num_bin <= crate::bin_column::column_capacity(num_bin),
    ;
}

/// A bin that is no bin of its feature is cut to the width of the column.
pub proof fn column_cuts_other_bins(bins: Vec<u32>, num_bin: u32, column: BinColumn, i: int)
    requires
        call_ensures(BinColumn::new, (bins, num_bin), column),
        0 <= i < bins@.len(),
    ensures
        num_bin <= 256 ==> column@[i] == bins@[i] % 0x100,
        256 < num_bin <= 65536 ==> column@[i] == bins@[i] % 0x1_0000,
        65536 < num_bin ==> column@[i] == bins@[i],
{
}

/// A feature is categorical exactly where its bins are categories.
pub proof fn categorical_features_have_categories(f: GrowFeature)
    ensures
        f.is_categorical() <==> f.bin_type is Categorical,
        !f.is_categorical() <==> f.bin_type is Numerical,
{
}

/// Gathering the rows by their route sets those first whose route is 0, in their order, and says how many
/// they are.
pub proof fn gathered_route_sets_zeros_first(route: &[u32], n: usize, r: (Vec<u32>, usize), i: int, j: int) -> (at: (
    int,
    int,
))
    requires
        call_ensures(partition::gather_route, (route, n), r),
        n <= route@.len(),
        n <= u32::MAX,
        0 <= i < j < n,
    ensures
        r.0@[at.0] == i,
        r.0@[at.1] == j,
        at.0 < r.1 <==> route@[i] == 0,
        at.1 < r.1 <==> route@[j] == 0,
        (route@[i] == 0) == (route@[j] == 0) ==> at.0 < at.1,
{
    let marks = partition::left_marks(route@, n as int);
    routing::tally_is_the_count(marks, true);
    routing::marked_items_come_first(partition::row_ids(n as nat), marks, i, j)
}

/// The two sides of a division hold each row of the leaf once, and both ascend.
pub proof fn divided_sides_ascend(work: SplitWork, rows: Seq<u32>, i: int, j: int)
    requires
        grow_driver::divides_rows(work, rows),
        0 <= i < j,
    ensures
        work.left_rows@.len() + work.right_rows@.len() == rows.len(),
        j < work.left_rows@.len() ==> work.left_rows@[i] < work.left_rows@[j],
        j < work.right_rows@.len() ==> work.right_rows@[i] < work.right_rows@[j],
        forall|row: u32|
            (work.left_rows@ + work.right_rows@).to_multiset().count(row) == #[trigger] rows.to_multiset().count(row),
{
    broadcast use vstd::seq_lib::group_to_multiset_ensures;

    let both = work.left_rows@ + work.right_rows@;
    assert(both.to_multiset().len() == both.len());
    assert(rows.to_multiset().len() == rows.len());
}

/// The build of the smaller child is counted unless both children are scanned in one launch or the build
/// scans itself.
pub proof fn lone_builds_are_counted(
    smaller: usize,
    larger: usize,
    smaller_slot: usize,
    larger_slot: usize,
    smaller_scan: bool,
    larger_scan: bool,
    copack: bool,
    single_owner: bool,
    steps: Vec<DeviceStep>,
)
    requires
        call_ensures(
            grow_resident::plan_child_steps,
            (
                smaller,
                larger,
                smaller_slot,
                larger_slot,
                smaller_scan,
                larger_scan,
                copack,
                single_owner,
            ),
            steps,
        ),
    ensures
        steps@.len() > 0,
        single_owner ==> steps@[0] == (DeviceStep::BuildAndScan {
            leaf: smaller,
            slot: smaller_slot,
            scan: smaller_scan,
        }),
        !single_owner ==> steps@[0] == (DeviceStep::Build {
            leaf: smaller,
            slot: smaller_slot,
            counted: !(copack && smaller_scan && larger_scan),
        }),
{
}

} // verus!
