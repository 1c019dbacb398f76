//! Best-first growth of one tree: which leaf is split next, how its rows are divided, and
//! what is known of every leaf. Building, subtracting and scanning histograms, and changing
//! the tree, are left to the caller, who hands their results back.
use crate::bin_column;
use crate::bin_column::BinColumn;
use crate::dataset::{BinType, LeafPartitionLayout};
use crate::error;
use crate::error::{ComputeError, Fault};
use crate::gain::SplitInfo;
use crate::kernels::categorical_split;
use crate::kernels::data_partition;
use crate::kernels::grow_feature;
use crate::kernels::grow_feature::GrowFeature;
use crate::kernels::partition;
use crate::kernels::split_info::SplitScalars;
use crate::kernels::split_order;
use crate::number::Real64;
use crate::stable;
use crate::text;
use vstd::prelude::*;

verus! {

/// What is known of one leaf.
#[verifier::ext_equal]
pub struct LeafState {
    /// The leaf's rows, in partition order.
    pub rows: Seq<u32>,
    pub sum_g: Real64,
    pub sum_h: Real64,
    /// The leaf's best split, and the position of its feature or -1.
    pub best: SplitInfo,
    pub best_fpos: int,
    /// The winning bins of a categorical split.
    pub best_cat: Seq<u32>,
    pub depth: int,
}

/// One leaf of a growth.
#[derive(Debug, Clone)]
pub struct DriverLeaf {
    pub rows: Vec<u32>,
    pub sum_g: Real64,
    pub sum_h: Real64,
    pub best: SplitInfo,
    pub best_fpos: i32,
    pub best_cat: Vec<u32>,
    pub depth: i32,
}

impl View for DriverLeaf {
    type V = LeafState;

    open spec fn view(&self) -> LeafState {
        LeafState {
            rows: self.rows@,
            sum_g: self.sum_g,
            sum_h: self.sum_h,
            best: self.best,
            best_fpos: self.best_fpos as int,
            best_cat: self.best_cat@,
            depth: self.depth as int,
        }
    }
}

/// The rows of the first `n` leaves, one leaf behind the other.
pub open spec fn rows_of(leaves: Seq<LeafState>, n: int) -> Seq<u32>
    decreases n,
{
    if n <= 0 {
        Seq::empty()
    } else {
        rows_of(leaves, n - 1) + leaves[n - 1].rows
    }
}

/// Leaves with the same rows give the same rows one behind the other.
pub proof fn rows_of_prefix(a: Seq<LeafState>, b: Seq<LeafState>, n: int)
    requires
        n <= a.len(),
        n <= b.len(),
        forall|i: int| 0 <= i < n ==> (#[trigger] a[i]).rows == b[i].rows,
    ensures
        rows_of(a, n) == rows_of(b, n),
    decreases n,
{
    if n > 0 {
        assert(a[n - 1].rows == b[n - 1].rows);
        rows_of_prefix(a, b, n - 1);
    }
}

/// Leaves that hold the same rows, each in any order, hold the same rows together.
pub proof fn equal_rows_add_up(a: Seq<LeafState>, b: Seq<LeafState>, n: int)
    requires
        0 <= n <= a.len(),
        n <= b.len(),
        forall|i: int| 0 <= i < n ==> (#[trigger] a[i]).rows.to_multiset() == b[i].rows.to_multiset(),
    ensures
        rows_of(a, n).to_multiset() == rows_of(b, n).to_multiset(),
    decreases n,
{
    if n > 0 {
        equal_rows_add_up(a, b, n - 1);
        assert(a[n - 1].rows.to_multiset() == b[n - 1].rows.to_multiset());
        vstd::seq_lib::lemma_multiset_commutative(rows_of(a, n - 1), a[n - 1].rows);
        vstd::seq_lib::lemma_multiset_commutative(rows_of(b, n - 1), b[n - 1].rows);
    }
}

proof fn rows_of_update(leaves: Seq<LeafState>, l: int, x: LeafState, n: int)
    requires
        0 <= l < n <= leaves.len(),
    ensures
        rows_of(leaves.update(l, x), n).to_multiset().add(leaves[l].rows.to_multiset()) == rows_of(
            leaves,
            n,
        ).to_multiset().add(x.rows.to_multiset()),
    decreases n,
{
    let new = leaves.update(l, x);
    vstd::seq_lib::lemma_multiset_commutative(rows_of(new, n - 1), new[n - 1].rows);
    vstd::seq_lib::lemma_multiset_commutative(rows_of(leaves, n - 1), leaves[n - 1].rows);
    let p = leaves[l].rows.to_multiset();
    let q = x.rows.to_multiset();
    let a = rows_of(new, n).to_multiset();
    let o = rows_of(leaves, n).to_multiset();
    let a0 = rows_of(new, n - 1).to_multiset();
    let o0 = rows_of(leaves, n - 1).to_multiset();
    if l == n - 1 {
        rows_of_prefix(leaves, new, n - 1);
        assert forall|v: u32| a.add(p).count(v) == o.add(q).count(v) by {
            assert(a == a0.add(q));
            assert(o == o0.add(p));
        }
    } else {
        rows_of_update(leaves, l, x, n - 1);
        assert(new[n - 1] == leaves[n - 1]);
        let t = leaves[n - 1].rows.to_multiset();
        assert forall|v: u32| a.add(p).count(v) == o.add(q).count(v) by {
            assert(a == a0.add(t));
            assert(o == o0.add(t));
            assert(a0.add(p).count(v) == o0.add(q).count(v));
        }
    }
    assert(a.add(p) =~= o.add(q));
}

/// Splitting a leaf's rows between it and a new last leaf keeps the rows of the tree.
pub proof fn split_keeps_rows(leaves: Seq<LeafState>, l: int, left: LeafState, right: LeafState)
    requires
        0 <= l < leaves.len(),
        (left.rows + right.rows).to_multiset() == leaves[l].rows.to_multiset(),
    ensures
        rows_of(leaves.update(l, left).push(right), leaves.len() as int + 1).to_multiset() == rows_of(
            leaves,
            leaves.len() as int,
        ).to_multiset(),
{
    let n = leaves.len() as int;
    let upd = leaves.update(l, left);
    let new = upd.push(right);
    rows_of_update(leaves, l, left, n);
    rows_of_prefix(upd, new, n);
    vstd::seq_lib::lemma_multiset_commutative(rows_of(new, n), right.rows);
    vstd::seq_lib::lemma_multiset_commutative(left.rows, right.rows);
    let a = rows_of(upd, n).to_multiset();
    let o = rows_of(leaves, n).to_multiset();
    let p = leaves[l].rows.to_multiset();
    assert forall|v: u32| a.add(right.rows.to_multiset()).count(v) == o.count(v) by {
        assert(a.add(p).count(v) == o.add(left.rows.to_multiset()).count(v));
        assert(p.count(v) == left.rows.to_multiset().add(right.rows.to_multiset()).count(v));
    }
    assert(rows_of(new, n + 1).to_multiset() =~= o);
}

/// Each row id is larger than the one before it.
pub open spec fn ascending(rows: Seq<u32>) -> bool {
    forall|i: int, j: int| 0 <= i < j < rows.len() ==> #[trigger] rows[i] < #[trigger] rows[j]
}

proof fn chosen_below(rows: Seq<u32>, marks: Seq<bool>, want: bool, bound: u32)
    requires
        rows.len() == marks.len(),
        forall|i: int| 0 <= i < rows.len() ==> #[trigger] rows[i] < bound,
    ensures
        forall|k: int|
            0 <= k < stable::chosen(rows, marks, want).len() ==> #[trigger] stable::chosen(
                rows,
                marks,
                want,
            )[k] < bound,
    decreases rows.len(),
{
    if rows.len() > 0 {
        let head = rows.drop_last();
        assert forall|i: int| 0 <= i < head.len() implies #[trigger] head[i] < bound by {
            assert(rows[i] < bound);
        }
        chosen_below(head, marks.drop_last(), want, bound);
        assert(rows[rows.len() - 1] < bound);
        let all = stable::chosen(rows, marks, want);
        let rest = stable::chosen(head, marks.drop_last(), want);
        assert forall|k: int| 0 <= k < all.len() implies #[trigger] all[k] < bound by {
            if k < rest.len() {
                assert(all[k] == rest[k]);
            }
        }
    }
}

/// One side of ascending rows is ascending.
pub proof fn chosen_ascends(rows: Seq<u32>, marks: Seq<bool>, want: bool)
    requires
        rows.len() == marks.len(),
        ascending(rows),
    ensures
        ascending(stable::chosen(rows, marks, want)),
    decreases rows.len(),
{
    if rows.len() > 0 {
        let head = rows.drop_last();
        chosen_ascends(head, marks.drop_last(), want);
        assert forall|i: int| 0 <= i < head.len() implies #[trigger] head[i] < rows.last() by {
            assert(rows[i] < rows[rows.len() - 1]);
        }
        chosen_below(head, marks.drop_last(), want, rows.last());
    }
}

/// The best split of every leaf.
pub open spec fn leaf_bests(leaves: Seq<LeafState>) -> Seq<SplitInfo> {
    Seq::new(leaves.len(), |i: int| leaves[i].best)
}

/// The real index of every leaf's best feature, -1 where it has none.
pub open spec fn leaf_feats(leaves: Seq<LeafState>, reals: Seq<i32>) -> Seq<i32> {
    Seq::new(leaves.len(), |i: int| split_order::held_feature(reals, leaves[i].best_fpos))
}

/// The leaf that is split next: the best one over all leaves, where its gain is positive.
pub open spec fn next_leaf(leaves: Seq<LeafState>, reals: Seq<i32>) -> Option<int> {
    let w = split_order::best_leaf(leaf_bests(leaves), leaf_feats(leaves, reals), leaves.len() as int);
    if leaves[w].best_fpos < 0 || !leaves[w].best.gain.spec_above(Real64::spec_zero()) {
        None
    } else {
        Some(w)
    }
}

/// Twice the minimum number of rows, cut off at the range of 32 bits.
pub open spec fn doubled(min_data: i32) -> int {
    if 2 * min_data > i32::MAX {
        i32::MAX as int
    } else if 2 * min_data < i32::MIN {
        i32::MIN as int
    } else {
        2 * min_data
    }
}

/// Twice the minimum number of rows, cut off at the range of 32 bits.
pub fn doubled_min_data(min_data: i32) -> (d: i32)
    ensures
        d == doubled(min_data),
{
    if min_data > 1_073_741_823 {
        i32::MAX
    } else if min_data < -1_073_741_824 {
        i32::MIN
    } else {
        2 * min_data
    }
}

/// Whether a leaf may be split further: it is above the depth limit, and both children could
/// have the minimum number of rows.
pub open spec fn may_split(rows: int, depth: int, min_data: i32, max_depth: i32) -> bool {
    !(max_depth > 0 && depth >= max_depth) && rows >= doubled(min_data)
}

/// The fault of a growth's inputs.
pub open spec fn grow_inputs_fault(
    num_leaves: i32,
    num_features: nat,
    num_gradients: nat,
    num_hessians: nat,
) -> Option<Fault> {
    if num_leaves < 1 {
        Some(
            Fault::Runtime(
                "grow_tree_on_device_driver_with_cfg: num_leaves must be >= 1, got "@
                    + text::signed_decimal(num_leaves as int),
            ),
        )
    } else if num_features == 0 {
        Some(
            Fault::Runtime(
                "grow_tree_on_device_driver_with_cfg: at least one feature is required"@,
            ),
        )
    } else if num_hessians != num_gradients {
        Some(Fault::LengthMismatch { expected: num_gradients, actual: num_hessians })
    } else {
        None
    }
}

/// Check the inputs of a growth.
pub fn check_grow_inputs(
    num_leaves: i32,
    num_features: usize,
    num_gradients: usize,
    num_hessians: usize,
) -> (r: Result<(), ComputeError>)
    ensures
        error::fails_as(
            r,
            grow_inputs_fault(
                num_leaves,
                num_features as nat,
                num_gradients as nat,
                num_hessians as nat,
            ),
        ),
{
    if num_leaves < 1 {
        let mut detail: String =
            "grow_tree_on_device_driver_with_cfg: num_leaves must be >= 1, got ".to_owned();
        text::push_signed_decimal(&mut detail, num_leaves as i64);
        return Err(ComputeError::Runtime { detail });
    }
    if num_features == 0 {
        return Err(
            error::runtime_error(
                "grow_tree_on_device_driver_with_cfg: at least one feature is required",
            ),
        );
    }
    if num_hessians != num_gradients {
        return Err(ComputeError::LengthMismatch { expected: num_gradients, actual: num_hessians });
    }
    Ok(())
}

/// Whether a growth keeps its histograms on the device: the backend can, and every feature is
/// numeric.
pub fn takes_resident_arm(resident_pool_supported: bool, features: &[GrowFeature]) -> (r: bool)
    ensures
        r == (resident_pool_supported && !grow_feature::any_categorical(
            features@,
            features@.len() as int,
        )),
{
    resident_pool_supported && !grow_feature::has_categorical(features)
}

/// The message about a right child whose leaf id in the tree is not the next leaf.
pub open spec fn desync_text(right_leaf_index: int, leaves: nat) -> Seq<char> {
    "grow_tree_on_device_driver: leaf-id desync — kernel right_leaf_index "@ + text::signed_decimal(
        right_leaf_index,
    ) + " must equal the next driver leaf slot "@ + text::decimal(leaves)
        + " (tree num_leaves and driver leaves.len() out of lockstep)"@
}

/// A number with its decimal, for a message.
#[derive(Debug, Clone, PartialEq, Eq)]
pub struct ShownNumber {
    pub value: Real64,
    /// The number written out in decimal. It is read only where the number is finite.
    pub decimal: String,
}

impl ShownNumber {
    /// How the number reads in a message.
    pub open spec fn shown(&self) -> Seq<char> {
        if self.value.spec_is_finite() {
            self.decimal@
        } else {
            non_finite_text(self.value)
        }
    }

    fn push_onto(&self, s: &mut String)
        ensures
            final(s)@ == old(s)@ + self.shown(),
    {
        if self.value.is_finite() {
            s.append(self.decimal.as_str());
        } else {
            push_non_finite(s, self.value);
        }
    }
}

/// How a number that is not finite reads in a message.
pub open spec fn non_finite_text(v: Real64) -> Seq<char> {
    if v.spec_is_nan() {
        "NaN"@
    } else if v.rank() < 0 {
        "-inf"@
    } else {
        "inf"@
    }
}

fn push_non_finite(s: &mut String, v: Real64)
    requires
        !v.spec_is_finite(),
    ensures
        final(s)@ == old(s)@ + non_finite_text(v),
{
    if v.is_nan() {
        s.append("NaN");
    } else if v.above(Real64::zero()) {
        s.append("inf");
    } else {
        s.append("-inf");
    }
}

/// The fault of a growth whose root sums are not finite.
pub open spec fn root_seed_fault(sum_g: ShownNumber, sum_h: ShownNumber) -> Option<Fault> {
    if !sum_g.value.spec_is_finite() || !sum_h.value.spec_is_finite() {
        Some(
            Fault::NonFinite(
                "seeded root grad/hess sum is non-finite (sum_gradient = "@ + sum_g.shown()
                    + ", sum_hessian = "@ + sum_h.shown() + ") — refusing to grow a corrupt tree that GBDT's no-split pop-loop would silently truncate (OCX-04, spike-072)"@,
            ),
        )
    } else {
        None
    }
}

/// Refuse to grow a tree whose root sums are not finite.
pub fn check_root_seed_finite(sum_g: &ShownNumber, sum_h: &ShownNumber) -> (r: Result<(), ComputeError>)
    ensures
        error::fails_as(r, root_seed_fault(*sum_g, *sum_h)),
{
    if !sum_g.value.is_finite() || !sum_h.value.is_finite() {
        let mut detail: String =
            "seeded root grad/hess sum is non-finite (sum_gradient = ".to_owned();
        sum_g.push_onto(&mut detail);
        detail.append(", sum_hessian = ");
        sum_h.push_onto(&mut detail);
        detail.append(") — refusing to grow a corrupt tree that GBDT's no-split pop-loop would silently truncate (OCX-04, spike-072)");
        return Err(ComputeError::NonFinite { detail });
    }
    Ok(())
}

/// The fault of the first leaf value, from leaf `from` on, that is not finite.
pub open spec fn leaf_value_fault(values: Seq<Real64>, from: int) -> Option<Fault>
    decreases values.len() - from,
{
    if from >= values.len() {
        None
    } else if !values[from].spec_is_finite() {
        Some(
            Fault::NonFinite(
                "emitted on-device leaf "@ + text::decimal(from as nat) + " value is non-finite ("@
                    + non_finite_text(values[from]) + ") — refusing to emit a corrupt tree (OCX-04, spike-072 tree-4→tree-12 leaf blow-up)"@,
            ),
        )
    } else {
        leaf_value_fault(values, from + 1)
    }
}

/// Refuse to emit a tree with a leaf value that is not finite.
pub fn check_tree_leaves_finite(leaf_value: &[Real64]) -> (r: Result<(), ComputeError>)
    ensures
        error::fails_as(r, leaf_value_fault(leaf_value@, 0)),
{
    let mut leaf: usize = 0;
    while leaf < leaf_value.len()
        invariant
            leaf <= leaf_value@.len(),
            leaf_value_fault(leaf_value@, 0) == leaf_value_fault(leaf_value@, leaf as int),
        decreases leaf_value@.len() - leaf,
    {
        let v: Real64 = leaf_value[leaf];
        if !v.is_finite() {
            let mut detail: String = "emitted on-device leaf ".to_owned();
            text::push_decimal(&mut detail, leaf as u64);
            detail.append(" value is non-finite (");
            push_non_finite(&mut detail, v);
            detail.append(") — refusing to emit a corrupt tree (OCX-04, spike-072 tree-4→tree-12 leaf blow-up)");
            return Err(ComputeError::NonFinite { detail });
        }
        leaf += 1;
    }
    Ok(())
}

/// A tree is emitted exactly where all its leaf values are finite.
pub proof fn emitted_leaves_are_finite(values: Seq<Real64>, from: int)
    requires
        0 <= from,
    ensures
        leaf_value_fault(values, from) is None <==> (forall|i: int|
            from <= i < values.len() ==> (#[trigger] values[i]).spec_is_finite()),
    decreases values.len() - from,
{
    if from < values.len() {
        emitted_leaves_are_finite(values, from + 1);
    }
}

/// What a split finder returned for one feature of a leaf.
#[derive(Debug, Clone)]
pub struct FeatureScan {
    pub split: SplitInfo,
    /// The winning bins, of a categorical feature.
    pub cat_bins: Vec<u32>,
}

/// The splits of a leaf's features.
pub open spec fn scan_splits(scans: Seq<FeatureScan>) -> Seq<SplitInfo> {
    Seq::new(scans.len(), |i: int| scans[i].split)
}

/// Which features a leaf's scan leaves out.
pub open spec fn scan_skips(features: Seq<GrowFeature>) -> Seq<bool> {
    Seq::new(features.len(), |i: int| features[i].has_na_bin())
}

/// Whether a leaf is scanned at all: it has rows and a positive hessian sum.
pub open spec fn scannable_sums(sum_h: Real64, num_data_in_leaf: i32) -> bool {
    sum_h.spec_above(Real64::spec_zero()) && num_data_in_leaf > 0
}

/// Whether a leaf is scanned at all.
pub fn leaf_is_scannable(sum_h: Real64, num_data_in_leaf: i32) -> (r: bool)
    ensures
        r == scannable_sums(sum_h, num_data_in_leaf),
{
    sum_h.above(Real64::zero()) && num_data_in_leaf > 0
}

/// The best split of a leaf, given what the finders returned for its features: the split, the
/// position of its feature or -1, and its winning bins. Where no finder returned a split, there
/// is none.
pub fn scan_leaf(
    features: &[GrowFeature],
    scans: &[FeatureScan],
    sum_h: Real64,
    num_data_in_leaf: i32,
) -> (r: (SplitInfo, i32, Vec<u32>))
    requires
        scans@.len() == features@.len(),
        features@.len() <= i32::MAX,
    ensures
        ({
            let w = if scannable_sums(sum_h, num_data_in_leaf) {
                split_order::winner(
                    scan_splits(scans@),
                    scan_skips(features@),
                    grow_feature::real_indices(features@),
                    scans@.len() as int,
                )
            } else {
                -1
            };
            &&& r.1 == w
            &&& r.0 == split_order::held(scan_splits(scans@), w)
            &&& r.2@ == (if w < 0 { Seq::empty() } else { scans@[w].cat_bins@ })
        }),
        grow_feature::none_admissible(scan_splits(scans@), scan_skips(features@)) ==> r.1 == -1
            && r.0 == SplitInfo::spec_none(),
{
    if !leaf_is_scannable(sum_h, num_data_in_leaf) {
        return (SplitInfo::none(), -1, Vec::new());
    }
    let ghost splits = scan_splits(scans@);
    let ghost skips = scan_skips(features@);
    let ghost reals = grow_feature::real_indices(features@);
    let mut best = SplitInfo::none();
    let mut best_fpos: i32 = -1;
    let mut best_real: i32 = -1;
    let mut fpos: usize = 0;
    while fpos < features.len()
        invariant
            fpos <= features@.len(),
            scans@.len() == features@.len(),
            features@.len() <= i32::MAX,
            splits == scan_splits(scans@),
            skips == scan_skips(features@),
            reals == grow_feature::real_indices(features@),
            -1 <= best_fpos < fpos,
            best_fpos == split_order::winner(splits, skips, reals, fpos as int),
            best == split_order::held(splits, best_fpos as int),
            best_real == split_order::held_feature(reals, best_fpos as int),
        decreases features@.len() - fpos,
    {
        let layout = features[fpos].batched(0);
        if !layout.na_as_missing {
            let feat: i32 = features[fpos].real_feature_index;
            if split_order::admissible(&scans[fpos].split) && split_order::split_gt(
                &scans[fpos].split,
                feat,
                &best,
                best_real,
            ) {
                best = scans[fpos].split;
                best_fpos = fpos as i32;
                best_real = feat;
            }
        }
        fpos += 1;
    }
    let best_cat: Vec<u32> = if best_fpos < 0 {
        Vec::new()
    } else {
        copy_of(scans[best_fpos as usize].cat_bins.as_slice())
    };
    assert(best_fpos < 0 ==> best_cat@ =~= Seq::<u32>::empty());
    proof {
        split_order::nobody_wins_iff_none_is_admissible(splits, skips, reals, splits.len() as int);
    }
    (best, best_fpos, best_cat)
}

/// A copy of a slice.
pub fn copy_of(items: &[u32]) -> (copy: Vec<u32>)
    ensures
        copy@ == items@,
{
    let mut copy: Vec<u32> = Vec::with_capacity(items.len());
    let mut i: usize = 0;
    while i < items.len()
        invariant
            i <= items@.len(),
            copy@ == items@.take(i as int),
        decreases items@.len() - i,
    {
        copy.push(items[i]);
        i += 1;
        assert(copy@ =~= items@.take(i as int));
    }
    assert(copy@ =~= items@);
    copy
}

/// The bins of a leaf's rows, as a column of their own.
pub open spec fn leaf_bins(f: GrowFeature, rows: Seq<u32>) -> Seq<u32> {
    bin_column::narrowed(data_partition::gathered(f.bins@, rows), f.num_bin)
}

/// Winning bins as signed bins.
pub open spec fn signed_bins(bins: Seq<u32>) -> Seq<i32> {
    Seq::new(bins.len(), |i: int| bins[i] as i32)
}

/// The left marks of a leaf's rows under its best split: by threshold for a numeric feature,
/// by the routing bitset for a categorical one.
pub open spec fn split_marks(f: GrowFeature, best: SplitInfo, rows: Seq<u32>, inner_bitset: Seq<u32>) -> Seq<bool> {
    if f.is_categorical() {
        data_partition::categorical_marks(
            leaf_bins(f, rows),
            f.min_bin,
            f.max_bin,
            f.most_freq_bin,
            inner_bitset,
        )
    } else {
        f.route(best).marks(leaf_bins(f, rows))
    }
}

/// The text of the fault of a threshold that has no upper bound.
pub open spec fn bound_text(threshold: u32, f: GrowFeature) -> Seq<char> {
    "grow_tree_on_device_driver_with_cfg: split threshold bin index "@ + text::decimal(threshold as nat)
        + " out of range for feature "@ + text::signed_decimal(f.real_feature_index as int)
        + " bin_upper_bound (len "@ + text::decimal(f.bin_upper_bound@.len()) + ")"@
}

/// The fault of splitting a leaf's rows by its best split.
pub open spec fn split_fault(f: GrowFeature, best: SplitInfo, best_cat: Seq<u32>, rows: Seq<u32>) -> Option<Fault> {
    if f.is_categorical() {
        data_partition::categorical_device_fault(
            leaf_bins(f, rows),
            f.num_bin,
            rows.len(),
            best_cat.len(),
        )
    } else if data_partition::partition_fault(leaf_bins(f, rows), f.num_bin, best.threshold, rows.len()) is Some {
        data_partition::partition_fault(leaf_bins(f, rows), f.num_bin, best.threshold, rows.len())
    } else if best.threshold >= f.bin_upper_bound@.len() {
        Some(Fault::Runtime(bound_text(best.threshold, f)))
    } else {
        None
    }
}

/// The arithmetic of splitting a leaf's rows by its best split stays in range.
pub open spec fn split_fits(f: GrowFeature, best: SplitInfo, best_cat: Seq<u32>, rows: Seq<u32>) -> bool {
    let bins = leaf_bins(f, rows);
    if f.is_categorical() {
        &&& categorical_split::routing_keys_fit(signed_bins(best_cat), f.min_bin as i32, f.offset)
        &&& split_fault(f, best, best_cat, rows) is None ==> forall|i: int|
            0 <= i < bins.len() ==> data_partition::category_position_fits(
                #[trigger] bins[i] as i32,
                f.min_bin as i32,
                f.max_bin as i32,
                f.most_freq_bin as i32,
            )
    } else {
        &&& f.spec_partition_min_bin() <= u32::MAX
        &&& data_partition::partition_fault(bins, f.num_bin, best.threshold, rows.len()) is None ==> f.route(best).sums_fit(
            rows.len(),
        )
    }
}

/// The rows of one leaf divided by its best split, with what the tree records of it.
#[derive(Debug, Clone)]
pub struct SplitWork {
    /// The leaf that is split; it becomes the left child.
    pub leaf: usize,
    pub left_rows: Vec<u32>,
    pub right_rows: Vec<u32>,
    pub real_feature_index: i32,
    pub missing_type_code: i32,
    /// The value of a numeric threshold.
    pub real_threshold: Option<Real64>,
    /// The categories that go left, of a categorical split.
    pub real_bitset: Vec<u32>,
    /// The routing positions that go left, of a categorical split.
    pub inner_bitset: Vec<u32>,
    pub scalars: SplitScalars,
}

/// The two sides hold the rows of a leaf, each once and both in ascending order.
pub open spec fn divides_rows(work: SplitWork, rows: Seq<u32>) -> bool {
    &&& (work.left_rows@ + work.right_rows@).to_multiset() == rows.to_multiset()
    &&& ascending(work.left_rows@)
    &&& ascending(work.right_rows@)
}

/// The record of a split with the given row counts.
pub open spec fn split_record(
    leaf: i32,
    f: GrowFeature,
    best: SplitInfo,
    recorded_gain: Real64,
    left_count: i32,
    right_count: i32,
    num_cat: i32,
) -> SplitScalars {
    SplitScalars {
        is_valid: true,
        leaf_index: leaf,
        gain: recorded_gain,
        inner_feature_index: f.real_feature_index,
        threshold: if f.is_categorical() { 0 } else { best.threshold },
        default_left: best.default_left,
        left_sum_gradients: best.left_sum_gradient,
        left_sum_hessians: best.left_sum_hessian,
        left_sum_gh_quant: 0,
        left_count,
        left_gain: Real64::spec_zero(),
        left_value: best.left_output,
        right_sum_gradients: best.right_sum_gradient,
        right_sum_hessians: best.right_sum_hessian,
        right_sum_gh_quant: 0,
        right_count,
        right_gain: Real64::spec_zero(),
        right_value: best.right_output,
        num_cat_threshold: num_cat,
    }
}

/// The children of a split.
#[derive(Debug, Clone, Copy, PartialEq, Eq, Structural)]
pub struct ChildPlan {
    pub left: usize,
    pub right: usize,
    /// The child with fewer rows, the right one on a tie: its histogram is built.
    pub smaller: usize,
    /// The other child: its histogram is the parent's less that of the smaller child.
    pub larger: usize,
}

fn record_split(
    leaf: i32,
    f: &GrowFeature,
    best: &SplitInfo,
    recorded_gain: Real64,
    left_count: i32,
    right_count: i32,
    num_cat: i32,
) -> (r: SplitScalars)
    ensures
        r == split_record(leaf, *f, *best, recorded_gain, left_count, right_count, num_cat),
{
    SplitScalars {
        is_valid: true,
        leaf_index: leaf,
        gain: recorded_gain,
        inner_feature_index: f.real_feature_index,
        threshold: if f.bin_type == BinType::Categorical {
            0
        } else {
            best.threshold
        },
        default_left: best.default_left,
        left_sum_gradients: best.left_sum_gradient,
        left_sum_hessians: best.left_sum_hessian,
        left_sum_gh_quant: 0,
        left_count,
        left_gain: Real64::zero(),
        left_value: best.left_output,
        right_sum_gradients: best.right_sum_gradient,
        right_sum_hessians: best.right_sum_hessian,
        right_sum_gh_quant: 0,
        right_count,
        right_gain: Real64::zero(),
        right_value: best.right_output,
        num_cat_threshold: num_cat,
    }
}

/// The bins of the given rows of a feature, as a column of their own.
pub fn gather_leaf_bins(f: &GrowFeature, rows: &[u32]) -> (column: BinColumn)
    requires
        forall|i: int| 0 <= i < rows@.len() ==> #[trigger] rows@[i] < f.bins@.len(),
    ensures
        column@ == leaf_bins(*f, rows@),
{
    let mut bins: Vec<u32> = Vec::with_capacity(rows.len());
    let mut i: usize = 0;
    while i < rows.len()
        invariant
            i <= rows@.len(),
            forall|k: int| 0 <= k < rows@.len() ==> #[trigger] rows@[k] < f.bins@.len(),
            bins@ == data_partition::gathered(f.bins@, rows@).take(i as int),
        decreases rows@.len() - i,
    {
        bins.push(f.bins.bin(rows[i] as usize));
        i += 1;
        assert(bins@ =~= data_partition::gathered(f.bins@, rows@).take(i as int));
    }
    assert(bins@ =~= data_partition::gathered(f.bins@, rows@));
    BinColumn::new(bins, f.num_bin)
}

/// Divide reordered rows at the split point.
fn split_at_point(order: Vec<u32>, split_point: usize) -> (r: (Vec<u32>, Vec<u32>))
    requires
        split_point <= order@.len(),
    ensures
        r.0@ == order@.take(split_point as int),
        r.1@ == order@.skip(split_point as int),
{
    let mut left = order;
    let right = left.split_off(split_point);
    assert(left@ =~= order@.take(split_point as int));
    assert(right@ =~= order@.skip(split_point as int));
    (left, right)
}

proof fn sides_of_partition(rows: Seq<u32>, marks: Seq<bool>)
    requires
        rows.len() == marks.len(),
    ensures
        stable::tally(marks, true) <= rows.len(),
        stable::stable_partition(rows, marks).take(stable::tally(marks, true) as int) == stable::chosen(
            rows,
            marks,
            true,
        ),
        stable::stable_partition(rows, marks).skip(stable::tally(marks, true) as int) == stable::chosen(
            rows,
            marks,
            false,
        ),
        stable::stable_partition(rows, marks).len() == rows.len(),
{
    stable::chosen_len(rows, marks, true);
    stable::chosen_len(rows, marks, false);
    stable::tallies_sum(marks);
    let p = stable::stable_partition(rows, marks);
    assert(p.take(stable::tally(marks, true) as int) =~= stable::chosen(rows, marks, true));
    assert(p.skip(stable::tally(marks, true) as int) =~= stable::chosen(rows, marks, false));
}

/// What a division of `rows` by the best split of a leaf has to be.
pub open spec fn is_split_work(
    work: SplitWork,
    leaf: int,
    f: GrowFeature,
    best: SplitInfo,
    best_cat: Seq<u32>,
    rows: Seq<u32>,
    recorded_gain: Real64,
) -> bool {
    let marks = split_marks(f, best, rows, work.inner_bitset@);
    let left = stable::chosen(rows, marks, true);
    let right = stable::chosen(rows, marks, false);
    &&& work.leaf == leaf
    &&& work.left_rows@ == left
    &&& work.right_rows@ == right
    &&& work.real_feature_index == f.real_feature_index
    &&& work.missing_type_code == f.missing_type.spec_code()
    &&& work.real_threshold == (if f.is_categorical() {
        None
    } else {
        Some(f.bin_upper_bound@[best.threshold as int])
    })
    &&& f.is_categorical() ==> categorical_split::is_bitset_of(
        work.real_bitset@,
        categorical_split::category_values(signed_bins(best_cat), f.bin_to_category@),
    )
    &&& f.is_categorical() ==> categorical_split::is_bitset_of(
        work.inner_bitset@,
        categorical_split::routing_keys(signed_bins(best_cat), f.min_bin as i32, f.offset),
    )
    &&& !f.is_categorical() ==> work.real_bitset@.len() == 0 && work.inner_bitset@.len() == 0
    &&& work.scalars == split_record(
        leaf as i32,
        f,
        best,
        recorded_gain,
        left.len() as i32,
        right.len() as i32,
        if f.is_categorical() { best_cat.len() as i32 } else { 0 },
    )
}

/// Divide the rows of one leaf by its best split of feature `f`. `recorded_gain` is the gain
/// that the tree records.
pub fn split_rows(
    leaf: usize,
    f: &GrowFeature,
    best: &SplitInfo,
    best_cat: &[u32],
    rows: &[u32],
    recorded_gain: Real64,
) -> (r: Result<SplitWork, ComputeError>)
    requires
        leaf <= i32::MAX,
        rows@.len() <= i32::MAX,
        best_cat@.len() <= i32::MAX,
        forall|i: int| 0 <= i < rows@.len() ==> #[trigger] rows@[i] < f.bins@.len(),
        split_fits(*f, *best, best_cat@, rows@),
    ensures
        error::fails_as(r, split_fault(*f, *best, best_cat@, rows@)),
        r matches Ok(work) ==> is_split_work(
            work,
            leaf as int,
            *f,
            *best,
            best_cat@,
            rows@,
            recorded_gain,
        ),
        r matches Ok(work) ==> {
            &&& work.scalars.leaf_index == leaf
            &&& work.scalars.gain == recorded_gain
            &&& work.scalars.left_value == best.left_output
            &&& work.scalars.left_sum_gradients == best.left_sum_gradient
            &&& work.scalars.left_sum_hessians == best.left_sum_hessian
            &&& work.scalars.right_value == best.right_output
            &&& work.scalars.right_sum_gradients == best.right_sum_gradient
            &&& work.scalars.right_sum_hessians == best.right_sum_hessian
            &&& work.scalars.default_left == best.default_left
            &&& work.scalars.left_count == work.left_rows@.len()
            &&& work.scalars.right_count == work.right_rows@.len()
        },
{
    let bins_sub = gather_leaf_bins(f, rows);
    let missing_type_u8: u8 = f.missing_type.code();
    if f.bin_type == BinType::Categorical {
        let n: usize = best_cat.len();
        let mut win_bins: Vec<i32> = Vec::with_capacity(n);
        let mut win_real: Vec<u32> = Vec::with_capacity(n);
        let mut i: usize = 0;
        while i < n
            invariant
                i <= n,
                n == best_cat@.len(),
                win_bins@.len() == i,
                win_real@.len() == i,
                forall|k: int| 0 <= k < i ==> #[trigger] win_bins@[k] == best_cat@[k] as i32,
                forall|k: int|
                    0 <= k < i ==> #[trigger] win_real@[k] == categorical_split::category_of(
                        best_cat@[k] as i32,
                        f.bin_to_category@,
                    ) as u32,
            decreases n - i,
        {
            let bin: i32 = best_cat[i] as i32;
            win_bins.push(bin);
            win_real.push(
                categorical_split::real_category(bin, f.bin_to_category.as_slice()) as u32,
            );
            i += 1;
        }
        assert(win_bins@ =~= signed_bins(best_cat@));
        assert(win_real@ =~= categorical_split::category_values(
            signed_bins(best_cat@),
            f.bin_to_category@,
        ));
        let real_bitset = categorical_split::construct_bitset(win_real.as_slice());
        let inner_bitset = categorical_split::construct_inner_bitset(
            win_bins.as_slice(),
            f.min_bin as i32,
            f.offset,
        );
        let (reordered, split_point) = data_partition::partition_categorical_on_device(
            &bins_sub,
            rows,
            f.num_bin,
            f.min_bin,
            f.max_bin,
            f.most_freq_bin,
            inner_bitset.as_slice(),
        )?;
        let ghost marks = split_marks(*f, *best, rows@, inner_bitset@);
        proof {
            sides_of_partition(rows@, marks);
        }
        let (left_rows, right_rows) = split_at_point(reordered, split_point);
        let scalars = record_split(
            leaf as i32,
            f,
            best,
            recorded_gain,
            left_rows.len() as i32,
            right_rows.len() as i32,
            n as i32,
        );
        Ok(
            SplitWork {
                leaf,
                left_rows,
                right_rows,
                real_feature_index: f.real_feature_index,
                missing_type_code: missing_type_u8 as i32,
                real_threshold: None,
                real_bitset,
                inner_bitset,
                scalars,
            },
        )
    } else {
        let (reordered, split_point) = data_partition::partition_leaf_stable(
            &bins_sub,
            rows,
            f.num_bin,
            f.partition_min_bin(),
            f.max_bin,
            f.default_bin,
            f.most_freq_bin,
            missing_type_u8,
            best.default_left,
            best.threshold,
        )?;
        let inner_bitset: Vec<u32> = Vec::new();
        let ghost marks = split_marks(*f, *best, rows@, inner_bitset@);
        proof {
            sides_of_partition(rows@, marks);
        }
        let (left_rows, right_rows) = split_at_point(reordered, split_point);
        let index: usize = best.threshold as usize;
        if index >= f.bin_upper_bound.len() {
            let mut detail: String =
                "grow_tree_on_device_driver_with_cfg: split threshold bin index ".to_owned();
            text::push_decimal(&mut detail, best.threshold as u64);
            detail.append(" out of range for feature ");
            text::push_signed_decimal(&mut detail, f.real_feature_index as i64);
            detail.append(" bin_upper_bound (len ");
            text::push_decimal(&mut detail, f.bin_upper_bound.len() as u64);
            detail.append(")");
            return Err(ComputeError::Runtime { detail });
        }
        let real_threshold: Real64 = f.bin_upper_bound[index];
        let scalars = record_split(
            leaf as i32,
            f,
            best,
            recorded_gain,
            left_rows.len() as i32,
            right_rows.len() as i32,
            0,
        );
        Ok(
            SplitWork {
                leaf,
                left_rows,
                right_rows,
                real_feature_index: f.real_feature_index,
                missing_type_code: missing_type_u8 as i32,
                real_threshold: Some(real_threshold),
                real_bitset: Vec::new(),
                inner_bitset,
                scalars,
            },
        )
    }
}

/// Every feature has a bin for each of `num_data` rows.
pub open spec fn features_cover(features: Seq<GrowFeature>, num_data: nat) -> bool {
    forall|i: int| 0 <= i < features.len() ==> (#[trigger] features[i]).bins@.len() >= num_data
}

/// The state of a growth.
#[derive(Debug)]
pub struct GrowDriver {
    leaves: Vec<DriverLeaf>,
    num_leaves: i32,
    max_depth: i32,
    min_data_in_leaf: i32,
    num_data: usize,
    num_features: usize,
}

/// The leaves of a growth and its limits.
#[verifier::ext_equal]
pub struct GrowState {
    pub leaves: Seq<LeafState>,
    pub num_leaves: int,
    pub max_depth: i32,
    pub min_data_in_leaf: i32,
    pub num_data: nat,
    pub num_features: nat,
}

impl View for GrowDriver {
    type V = GrowState;

    closed spec fn view(&self) -> GrowState {
        GrowState {
            leaves: Seq::new(self.leaves@.len(), |i: int| self.leaves@[i]@),
            num_leaves: self.num_leaves as int,
            max_depth: self.max_depth,
            min_data_in_leaf: self.min_data_in_leaf,
            num_data: self.num_data as nat,
            num_features: self.num_features as nat,
        }
    }
}

impl GrowState {
    /// There are between one and `num_leaves` leaves, their rows are the rows of the data, each
    /// once, the rows of a leaf are in ascending order, and every leaf names a feature of the growth
    /// or none.
    pub open spec fn wf(self) -> bool {
        &&& 1 <= self.leaves.len() <= self.num_leaves <= i32::MAX
        &&& self.num_data <= i32::MAX
        &&& self.num_features <= i32::MAX
        &&& rows_of(self.leaves, self.leaves.len() as int).to_multiset() == partition::row_ids(
            self.num_data,
        ).to_multiset()
        &&& forall|i: int| 0 <= i < self.leaves.len() ==> ascending((#[trigger] self.leaves[i]).rows)
        &&& forall|i: int|
            0 <= i < self.leaves.len() ==> -1 <= (#[trigger] self.leaves[i]).best_fpos < self.num_features
        &&& forall|i: int|
            0 <= i < self.leaves.len() ==> 0 <= (#[trigger] self.leaves[i]).depth < self.leaves.len()
        &&& forall|i: int|
            0 <= i < self.leaves.len() ==> (#[trigger] self.leaves[i]).best_cat.len() <= i32::MAX
    }

    /// The leaves after leaf `l` was split: the left child in its place, the right child behind
    /// all others, both one level deeper, with the sums of the split and no split of their own.
    pub open spec fn after_split(self, l: int, left: Seq<u32>, right: Seq<u32>) -> GrowState {
        let best = self.leaves[l].best;
        let depth = self.leaves[l].depth + 1;
        GrowState {
            leaves: self.leaves.update(
                l,
                unsplit_leaf(left, best.left_sum_gradient, best.left_sum_hessian, depth),
            ).push(unsplit_leaf(right, best.right_sum_gradient, best.right_sum_hessian, depth)),
            ..self
        }
    }

    /// The rows of one leaf are rows of the data.
    pub proof fn rows_in_range(self, l: int)
        requires
            self.wf(),
            0 <= l < self.leaves.len(),
        ensures
            self.leaves[l].rows.len() <= self.num_data,
            forall|i: int|
                0 <= i < self.leaves[l].rows.len() ==> #[trigger] self.leaves[l].rows[i] < self.num_data,
    {
        let all = rows_of(self.leaves, self.leaves.len() as int);
        partition::permutation_in_range(all, self.num_data);
        leaf_rows_within(self.leaves, self.leaves.len() as int, l);
    }

    /// Each row of the data is in exactly one leaf, once.
    pub proof fn each_row_once(self)
        requires
            self.wf(),
        ensures
            rows_of(self.leaves, self.leaves.len() as int).len() == self.num_data,
            rows_of(self.leaves, self.leaves.len() as int).no_duplicates(),
            forall|row: u32|
                row < self.num_data ==> #[trigger] rows_of(self.leaves, self.leaves.len() as int).contains(row),
    {
        let all = rows_of(self.leaves, self.leaves.len() as int);
        permutation_has_each_once(all, self.num_data);
    }
}

/// A leaf that has not been scanned.
pub open spec fn unsplit_leaf(rows: Seq<u32>, sum_g: Real64, sum_h: Real64, depth: int) -> LeafState {
    LeafState {
        rows,
        sum_g,
        sum_h,
        best: SplitInfo::spec_none(),
        best_fpos: -1,
        best_cat: Seq::empty(),
        depth,
    }
}

proof fn leaf_rows_within(leaves: Seq<LeafState>, n: int, l: int)
    requires
        0 <= l < n <= leaves.len(),
    ensures
        leaves[l].rows.len() <= rows_of(leaves, n).len(),
        forall|i: int|
            0 <= i < leaves[l].rows.len() ==> rows_of(leaves, n).contains(#[trigger] leaves[l].rows[i]),
    decreases n,
{
    let head = rows_of(leaves, n - 1);
    let all = rows_of(leaves, n);
    if l < n - 1 {
        leaf_rows_within(leaves, n - 1, l);
        assert forall|i: int| 0 <= i < leaves[l].rows.len() implies all.contains(#[trigger] leaves[l].rows[i]) by {
            let v = leaves[l].rows[i];
            let k = choose|k: int| 0 <= k < head.len() && head[k] == v;
            assert(all[k] == v);
        }
    } else {
        assert forall|i: int| 0 <= i < leaves[l].rows.len() implies all.contains(#[trigger] leaves[l].rows[i]) by {
            assert(all[head.len() + i] == leaves[l].rows[i]);
        }
    }
}

/// A permutation of row ids holds each of them exactly once.
pub proof fn permutation_has_each_once(perm: Seq<u32>, n: nat)
    requires
        n <= u32::MAX,
        perm.to_multiset() == partition::row_ids(n).to_multiset(),
    ensures
        perm.len() == n,
        perm.no_duplicates(),
        forall|row: u32| row < n ==> #[trigger] perm.contains(row),
{
    let ids = partition::row_ids(n);
    perm.to_multiset_ensures();
    ids.to_multiset_ensures();
    assert(ids.no_duplicates());
    ids.lemma_multiset_has_no_duplicates();
    perm.lemma_multiset_has_no_duplicates_conv();
    assert forall|row: u32| row < n implies #[trigger] perm.contains(row) by {
        assert(ids[row as int] == row);
        assert(ids.contains(row));
        assert(perm.to_multiset().count(row) > 0);
    }
}

impl GrowDriver {
    /// Start a growth at the root, with the sums over all rows. The root has not been scanned.
    pub fn start(
        num_leaves: i32,
        max_depth: i32,
        min_data_in_leaf: i32,
        num_data: usize,
        num_features: usize,
        root_sum_g: &ShownNumber,
        root_sum_h: &ShownNumber,
    ) -> (r: Result<GrowDriver, ComputeError>)
        requires
            num_leaves >= 1,
            num_data <= i32::MAX,
            num_features <= i32::MAX,
        ensures
            error::fails_as(r, root_seed_fault(*root_sum_g, *root_sum_h)),
            r matches Ok(d) ==> d@.wf() && d@ == (GrowState {
                leaves: seq![
                    unsplit_leaf(partition::row_ids(num_data as nat), root_sum_g.value, root_sum_h.value, 0),
                ],
                num_leaves: num_leaves as int,
                max_depth,
                min_data_in_leaf,
                num_data: num_data as nat,
                num_features: num_features as nat,
            }),
    {
        check_root_seed_finite(root_sum_g, root_sum_h)?;
        let mut leaves: Vec<DriverLeaf> = Vec::new();
        leaves.push(
            DriverLeaf {
                rows: partition::iota_u32(num_data),
                sum_g: root_sum_g.value,
                sum_h: root_sum_h.value,
                best: SplitInfo::none(),
                best_fpos: -1,
                best_cat: Vec::new(),
                depth: 0,
            },
        );
        let d = GrowDriver {
            leaves,
            num_leaves,
            max_depth,
            min_data_in_leaf,
            num_data,
            num_features,
        };
        proof {
            let root = unsplit_leaf(partition::row_ids(num_data as nat), root_sum_g.value, root_sum_h.value, 0);
            assert(d.leaves@[0]@ =~= root);
            assert(d@.leaves =~= seq![root]);
            assert(rows_of(d@.leaves, 0) =~= Seq::<u32>::empty());
            assert(rows_of(d@.leaves, 1) =~= root.rows);
        }
        Ok(d)
    }

    /// How many leaves there are.
    pub fn leaf_count(&self) -> (n: usize)
        ensures
            n == self@.leaves.len(),
    {
        self.leaves.len()
    }

    /// What is known of one leaf.
    pub fn leaf(&self, l: usize) -> (leaf: &DriverLeaf)
        requires
            l < self@.leaves.len(),
        ensures
            leaf@ == self@.leaves[l as int],
    {
        &self.leaves[l]
    }

    /// Record the outcome of scanning a leaf.
    pub fn record_scan(&mut self, l: usize, best: SplitInfo, best_fpos: i32, best_cat: Vec<u32>)
        requires
            old(self)@.wf(),
            l < old(self)@.leaves.len(),
            -1 <= best_fpos < old(self)@.num_features,
            best_cat@.len() <= i32::MAX,
        ensures
            final(self)@.wf(),
            final(self)@ == (GrowState {
                leaves: old(self)@.leaves.update(
                    l as int,
                    LeafState {
                        best,
                        best_fpos: best_fpos as int,
                        best_cat: best_cat@,
                        ..old(self)@.leaves[l as int]
                    },
                ),
                ..old(self)@
            }),
    {
        let ghost before = self@;
        let mut leaf = self.leaves.swap_remove(l);
        leaf.best = best;
        leaf.best_fpos = best_fpos;
        leaf.best_cat = best_cat;
        self.put_back(l, leaf);
        proof {
            let target = before.leaves.update(
                l as int,
                LeafState { best, best_fpos: best_fpos as int, best_cat: best_cat@, ..before.leaves[l as int] },
            );
            assert(self@.leaves =~= target);
            rows_of_prefix(before.leaves, self@.leaves, before.leaves.len() as int);
        }
    }

    /// Undo the removal of a leaf that was swapped out of the list, with a new leaf.
    fn put_back(&mut self, l: usize, leaf: DriverLeaf)
        requires
            l <= old(self).leaves@.len(),
            old(self).leaves@.len() < usize::MAX,
        ensures
            final(self).leaves@ == (if l == old(self).leaves@.len() {
                old(self).leaves@.push(leaf)
            } else {
                old(self).leaves@.push(old(self).leaves@[l as int]).update(l as int, leaf)
            }),
            final(self).num_leaves == old(self).num_leaves,
            final(self).max_depth == old(self).max_depth,
            final(self).min_data_in_leaf == old(self).min_data_in_leaf,
            final(self).num_data == old(self).num_data,
            final(self).num_features == old(self).num_features,
    {
        self.leaves.push(leaf);
        let last: usize = self.leaves.len() - 1;
        if l < last {
            let moved = self.leaves.swap_remove(l);
            self.leaves.push(moved);
        }
    }

    /// The leaf to split next, `None` where growth stops: the leaf limit is reached, or no leaf
    /// has a split with a positive gain.
    pub fn next_split(&self, features: &[GrowFeature]) -> (r: Option<usize>)
        requires
            self@.wf(),
            features@.len() == self@.num_features,
        ensures
            match r {
                Some(l) => self@.leaves.len() < self@.num_leaves && next_leaf(
                    self@.leaves,
                    grow_feature::real_indices(features@),
                ) == Some(l as int) && l < self@.leaves.len(),
                None => self@.leaves.len() >= self@.num_leaves || next_leaf(
                    self@.leaves,
                    grow_feature::real_indices(features@),
                ) is None,
            },
    {
        if self.leaves.len() >= self.num_leaves as usize {
            return None;
        }
        let ghost reals = grow_feature::real_indices(features@);
        let ghost bests = leaf_bests(self@.leaves);
        let ghost feats = leaf_feats(self@.leaves, reals);
        let n: usize = self.leaves.len();
        let mut best: usize = 0;
        let mut i: usize = 1;
        while i < n
            invariant
                1 <= i <= n,
                n == self.leaves@.len(),
                self@.wf(),
                features@.len() == self@.num_features,
                reals == grow_feature::real_indices(features@),
                bests == leaf_bests(self@.leaves),
                feats == leaf_feats(self@.leaves, reals),
                best < i,
                best == split_order::best_leaf(bests, feats, i as int),
            decreases n - i,
        {
            let a = &self.leaves[i];
            let b = &self.leaves[best];
            assert(a@ == self@.leaves[i as int]);
            assert(b@ == self@.leaves[best as int]);
            let a_feat: i32 = grow_feature::real_feat_of(features, a.best_fpos);
            let b_feat: i32 = grow_feature::real_feat_of(features, b.best_fpos);
            if split_order::split_gt(&a.best, a_feat, &b.best, b_feat) {
                best = i;
            }
            i += 1;
        }
        let leaf = &self.leaves[best];
        assert(leaf@ == self@.leaves[best as int]);
        if leaf.best_fpos < 0 || !leaf.best.gain.above(Real64::zero()) {
            None
        } else {
            Some(best)
        }
    }

    /// Divide the rows of a leaf by its best split.
    pub fn split_leaf(&self, features: &[GrowFeature], l: usize, recorded_gain: Real64) -> (r: Result<
        SplitWork,
        ComputeError,
    >)
        requires
            self@.wf(),
            features@.len() == self@.num_features,
            features_cover(features@, self@.num_data),
            l < self@.leaves.len(),
            self@.leaves[l as int].best_fpos >= 0,
            ({
                let leaf = self@.leaves[l as int];
                split_fits(features@[leaf.best_fpos], leaf.best, leaf.best_cat, leaf.rows)
            }),
        ensures
            ({
                let leaf = self@.leaves[l as int];
                let f = features@[leaf.best_fpos];
                &&& error::fails_as(r, split_fault(f, leaf.best, leaf.best_cat, leaf.rows))
                &&& r matches Ok(work) ==> is_split_work(
                    work,
                    l as int,
                    f,
                    leaf.best,
                    leaf.best_cat,
                    leaf.rows,
                    recorded_gain,
                )
            }),
            r matches Ok(work) ==> divides_rows(work, self@.leaves[l as int].rows),
            r matches Ok(work) ==> {
                &&& work.scalars.leaf_index == l
                &&& work.scalars.gain == recorded_gain
                &&& work.scalars.left_value == self@.leaves[l as int].best.left_output
                &&& work.scalars.left_sum_gradients == self@.leaves[l as int].best.left_sum_gradient
                &&& work.scalars.left_sum_hessians == self@.leaves[l as int].best.left_sum_hessian
                &&& work.scalars.right_value == self@.leaves[l as int].best.right_output
                &&& work.scalars.right_sum_gradients == self@.leaves[l as int].best.right_sum_gradient
                &&& work.scalars.right_sum_hessians == self@.leaves[l as int].best.right_sum_hessian
                &&& work.scalars.default_left == self@.leaves[l as int].best.default_left
                &&& work.scalars.left_count == work.left_rows@.len()
                &&& work.scalars.right_count == work.right_rows@.len()
            },
    {
        let leaf = &self.leaves[l];
        assert(leaf@ == self@.leaves[l as int]);
        proof {
            self@.rows_in_range(l as int);
        }
        let f = &features[leaf.best_fpos as usize];
        let r = split_rows(
            l,
            f,
            &leaf.best,
            leaf.best_cat.as_slice(),
            leaf.rows.as_slice(),
            recorded_gain,
        );
        proof {
            if r is Ok {
                let marks = split_marks(*f, leaf.best, leaf.rows@, r->Ok_0.inner_bitset@);
                stable::partition_is_permutation(leaf.rows@, marks);
                chosen_ascends(leaf.rows@, marks, true);
                chosen_ascends(leaf.rows@, marks, false);
            }
        }
        r
    }

    /// Take over a division of a leaf's rows, once the tree has given the right child the leaf
    /// id `right_leaf_index`.
    pub fn commit_split(&mut self, work: SplitWork, right_leaf_index: i32) -> (r: Result<
        ChildPlan,
        ComputeError,
    >)
        requires
            old(self)@.wf(),
            old(self)@.leaves.len() < old(self)@.num_leaves,
            work.leaf < old(self)@.leaves.len(),
            divides_rows(work, old(self)@.leaves[work.leaf as int].rows),
        ensures
            final(self)@.wf(),
            error::fails_as(
                r,
                if right_leaf_index != old(self)@.leaves.len() {
                    Some(
                        Fault::Runtime(desync_text(right_leaf_index as int, old(self)@.leaves.len())),
                    )
                } else {
                    None
                },
            ),
            r is Err ==> final(self)@ == old(self)@,
            r matches Ok(plan) ==> {
                &&& final(self)@ == old(self)@.after_split(
                    work.leaf as int,
                    work.left_rows@,
                    work.right_rows@,
                )
                &&& plan.left == work.leaf
                &&& plan.right == old(self)@.leaves.len()
                &&& plan.smaller == (if work.left_rows@.len() < work.right_rows@.len() {
                    plan.left
                } else {
                    plan.right
                })
                &&& plan.larger == (if work.left_rows@.len() < work.right_rows@.len() {
                    plan.right
                } else {
                    plan.left
                })
            },
    {
        let n: usize = self.leaves.len();
        if right_leaf_index < 0 || right_leaf_index as usize != n {
            let mut detail: String =
                "grow_tree_on_device_driver: leaf-id desync — kernel right_leaf_index ".to_owned();
            text::push_signed_decimal(&mut detail, right_leaf_index as i64);
            detail.append(" must equal the next driver leaf slot ");
            text::push_decimal(&mut detail, n as u64);
            detail.append(" (tree num_leaves and driver leaves.len() out of lockstep)");
            return Err(ComputeError::Runtime { detail });
        }
        let ghost before = self@;
        let left_leaf: usize = work.leaf;
        let smaller_is_left = work.left_rows.len() < work.right_rows.len();
        let ghost left_rows = work.left_rows@;
        let ghost right_rows = work.right_rows@;
        let parent = self.leaves.swap_remove(left_leaf);
        assert(parent@ == before.leaves[left_leaf as int]);
        let best = parent.best;
        let child_depth: i32 = parent.depth + 1;
        let left = DriverLeaf {
            rows: work.left_rows,
            sum_g: best.left_sum_gradient,
            sum_h: best.left_sum_hessian,
            best: SplitInfo::none(),
            best_fpos: -1,
            best_cat: Vec::new(),
            depth: child_depth,
        };
        let right = DriverLeaf {
            rows: work.right_rows,
            sum_g: best.right_sum_gradient,
            sum_h: best.right_sum_hessian,
            best: SplitInfo::none(),
            best_fpos: -1,
            best_cat: Vec::new(),
            depth: child_depth,
        };
        self.put_back(left_leaf, left);
        self.leaves.push(right);
        proof {
            let depth = before.leaves[left_leaf as int].depth + 1;
            let l_state = unsplit_leaf(left_rows, best.left_sum_gradient, best.left_sum_hessian, depth);
            let r_state = unsplit_leaf(right_rows, best.right_sum_gradient, best.right_sum_hessian, depth);
            assert(left@ =~= l_state);
            assert(right@ =~= r_state);
            let target = before.after_split(left_leaf as int, left_rows, right_rows);
            assert(self@.leaves =~= target.leaves);
            split_keeps_rows(before.leaves, left_leaf as int, l_state, r_state);
        }
        let plan = if smaller_is_left {
            ChildPlan { left: left_leaf, right: n, smaller: left_leaf, larger: n }
        } else {
            ChildPlan { left: left_leaf, right: n, smaller: n, larger: left_leaf }
        };
        Ok(plan)
    }

    /// Whether a leaf may be scanned for a further split.
    pub fn may_scan(&self, l: usize) -> (r: bool)
        requires
            self@.wf(),
            l < self@.leaves.len(),
        ensures
            r == may_split(
                self@.leaves[l as int].rows.len() as int,
                self@.leaves[l as int].depth,
                self@.min_data_in_leaf,
                self@.max_depth,
            ),
    {
        proof {
            self@.rows_in_range(l as int);
        }
        let leaf = &self.leaves[l];
        assert(leaf@ == self@.leaves[l as int]);
        let too_small = (leaf.rows.len() as i32) < doubled_min_data(self.min_data_in_leaf);
        let depth_capped = self.max_depth > 0 && leaf.depth >= self.max_depth;
        !depth_capped && !too_small
    }

    /// The rows of the first `final_leaves` leaves, grouped by leaf.
    pub fn layout(&self, final_leaves: usize) -> (layout: LeafPartitionLayout)
        requires
            self@.wf(),
        ensures
            ({
                let k = if final_leaves < self@.leaves.len() {
                    final_leaves as int
                } else {
                    self@.leaves.len() as int
                };
                &&& layout.num_data == self@.num_data
                &&& layout.indices@ == rows_of(self@.leaves, k)
                &&& layout.leaf_begin@.len() == k
                &&& layout.leaf_count@.len() == k
                &&& forall|i: int|
                    0 <= i < k ==> #[trigger] layout.leaf_begin@[i] == rows_of(self@.leaves, i).len()
                &&& forall|i: int|
                    0 <= i < k ==> #[trigger] layout.leaf_count@[i] == self@.leaves[i].rows.len()
            }),
    {
        let k: usize = if final_leaves < self.leaves.len() {
            final_leaves
        } else {
            self.leaves.len()
        };
        let mut indices: Vec<u32> = Vec::with_capacity(self.num_data);
        let mut leaf_begin: Vec<i32> = Vec::with_capacity(k);
        let mut leaf_count: Vec<i32> = Vec::with_capacity(k);
        let mut i: usize = 0;
        while i < k
            invariant
                i <= k,
                k <= self.leaves@.len(),
                self@.wf(),
                indices@ == rows_of(self@.leaves, i as int),
                leaf_begin@.len() == i,
                leaf_count@.len() == i,
                forall|j: int|
                    0 <= j < i ==> #[trigger] leaf_begin@[j] == rows_of(self@.leaves, j).len(),
                forall|j: int|
                    0 <= j < i ==> #[trigger] leaf_count@[j] == self@.leaves[j].rows.len(),
            decreases k - i,
        {
            let leaf = &self.leaves[i];
            assert(leaf@ == self@.leaves[i as int]);
            proof {
                self@.rows_in_range(i as int);
                partition::permutation_in_range(
                    rows_of(self@.leaves, self@.leaves.len() as int),
                    self@.num_data,
                );
                rows_of_grows(self@.leaves, i as int, self@.leaves.len() as int);
            }
            leaf_begin.push(indices.len() as i32);
            leaf_count.push(leaf.rows.len() as i32);
            append_copy(&mut indices, leaf.rows.as_slice());
            i += 1;
        }
        LeafPartitionLayout { num_data: self.num_data as i32, indices, leaf_begin, leaf_count }
    }
}

/// More leaves have at least as many rows.
pub proof fn rows_of_grows(leaves: Seq<LeafState>, i: int, j: int)
    requires
        0 <= i <= j <= leaves.len(),
    ensures
        rows_of(leaves, i).len() <= rows_of(leaves, j).len(),
    decreases j,
{
    if i < j {
        rows_of_grows(leaves, i, j - 1);
    }
}

/// Append a copy of `items`.
pub fn append_copy(out: &mut Vec<u32>, items: &[u32])
    ensures
        final(out)@ == old(out)@ + items@,
{
    let mut i: usize = 0;
    while i < items.len()
        invariant
            i <= items@.len(),
            out@ == old(out)@ + items@.take(i as int),
        decreases items@.len() - i,
    {
        out.push(items[i]);
        i += 1;
        assert(out@ =~= old(out)@ + items@.take(i as int));
    }
    assert(items@.take(items@.len() as int) =~= items@);
}

} // verus!
