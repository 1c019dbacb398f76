//! What the builds over resident columns leave in their buffers.
use crate::bin_column::BinColumn;
use crate::error::ComputeError;
use crate::kernels::fix_compact;
use crate::kernels::fixed_build;
use crate::kernels::histogram;
use crate::kernels::histogram_arena::HistArena;
use crate::kernels::leaf_histogram;
use crate::kernels::objective_binary;
use crate::kernels::resident_build;
use crate::kernels::row_partition;
use crate::kernels::row_partition::GroupChoice;
use crate::laws::histograms;
use crate::laws::sums;
use vstd::prelude::*;

verus! {

/// The bins of a leaf's rows in one of the columns that lie one behind the other.
pub open spec fn bins_of_rows(bins: Seq<u32>, num_data: int, f: int, rows: Seq<u32>) -> Seq<u32> {
    Seq::new(rows.len(), |k: int| bins[f * num_data + rows[k]])
}

/// The values of a leaf's rows.
pub open spec fn values_of_rows<V>(values: Seq<V>, rows: Seq<u32>) -> Seq<V> {
    Seq::new(rows.len(), |k: int| values[rows[k] as int])
}

/// A fixed-point build adds to the even cell of a bin the gradients of the leaf's rows in it, modulo 2^64,
/// and to the odd cell the hessians.
pub proof fn raw_build_adds_the_rows(
    bins: &BinColumn,
    num_data: usize,
    slot_off: &[usize],
    slot_len: usize,
    rows: &[u32],
    gradients: &[i64],
    hessians: &[i64],
    choice: &GroupChoice<'_>,
    resident_gh: bool,
    out: &mut Vec<u64>,
    f: int,
    b: int,
)
    requires
        call_ensures(
            resident_build::resident_raw_build_into,
            (bins, num_data, slot_off, slot_len, rows, gradients, hessians, choice, resident_gh, out),
            (),
        ),
        slot_len <= u32::MAX,
        old(out)@.len() >= slot_len,
        forall|k: int| 0 <= k < slot_off@.len() ==> #[trigger] slot_off@[k] <= slot_len,
        0 <= f < slot_off@.len(),
        0 <= b,
        slot_off@[f] + 2 * b + 1 < (if f + 1 < slot_off@.len() {
            slot_off@[f + 1] as int
        } else {
            slot_len as int
        }),
    ensures
        ({
            let own = bins_of_rows(bins@, num_data as int, f, rows@);
            let at = slot_off@[f] + 2 * b;
            &&& (final(out)@[at] - old(out)@[at] - sums::total_in_bin(
                own,
                values_of_rows(gradients@, rows@),
                histograms::fixed_value(),
                b,
            )) % 0x1_0000_0000_0000_0000 == 0
            &&& (final(out)@[at + 1] - old(out)@[at + 1] - sums::total_in_bin(
                own,
                values_of_rows(hessians@, rows@),
                histograms::fixed_value(),
                b,
            )) % 0x1_0000_0000_0000_0000 == 0
        }),
{
    let own = bins_of_rows(bins@, num_data as int, f, rows@);
    let bounds = row_partition::with_sentinel(slot_off@, slot_len);
    assert(values_of_rows(gradients@, rows@) =~= leaf_histogram::picked(gradients@, rows@));
    assert(values_of_rows(hessians@, rows@) =~= leaf_histogram::picked(hessians@, rows@));
    assert(slot_off@[f] <= slot_len);
    if f + 1 < slot_off@.len() {
        assert(slot_off@[f + 1] <= slot_len);
    }
    histograms::fixed_build_adds_each_bin(
        bins@,
        num_data as int,
        rows@,
        leaf_histogram::picked(gradients@, rows@),
        leaf_histogram::picked(hessians@, rows@),
        bounds,
        slot_off@.len() as int,
        old(out)@,
        final(out)@,
        own,
        f,
        b,
    );
}

/// A build in any arithmetic that adds exactly leaves in the even cell of a bin the gradients of the leaf's
/// rows in it on top of what it held, and in the odd cell the hessians, however the rows are dealt to
/// groups.
pub proof fn float_build_adds_the_rows<C: Copy, V: Copy, A: Fn(C, V) -> C, M: Fn(C, C) -> C>(
    add_to: &A,
    merge: &M,
    zero: C,
    bins: &BinColumn,
    num_data: usize,
    slot_off: &[usize],
    slot_len: usize,
    rows: &[u32],
    gradients: &[V],
    hessians: &[V],
    choice: &GroupChoice<'_>,
    out: &mut Vec<C>,
    amount: spec_fn(C) -> int,
    weight: spec_fn(V) -> int,
    f: int,
    b: int,
)
    requires
        call_ensures(
            resident_build::resident_float_build_into::<C, V, A, M>,
            (
                add_to,
                merge,
                zero,
                bins,
                num_data,
                slot_off,
                slot_len,
                rows,
                gradients,
                hessians,
                choice,
                out,
            ),
            (),
        ),
        rows@.len() > 0,
        choice.groups(rows@.len() as int, slot_off@.len() as int, false) > 0,
        slot_len <= u32::MAX,
        old(out)@.len() >= slot_len,
        forall|k: int| 0 <= k < slot_off@.len() ==> #[trigger] slot_off@[k] <= slot_len,
        sums::adds(*add_to, amount, weight),
        sums::adds(*merge, amount, amount),
        amount(zero) == 0,
        0 <= f < slot_off@.len(),
        0 <= b,
        slot_off@[f] + 2 * b + 1 < (if f + 1 < slot_off@.len() {
            slot_off@[f + 1] as int
        } else {
            slot_len as int
        }),
    ensures
        ({
            let own = bins_of_rows(bins@, num_data as int, f, rows@);
            let at = slot_off@[f] + 2 * b;
            &&& amount(final(out)@[at]) == amount(old(out)@[at]) + sums::total_in_bin(
                own,
                values_of_rows(gradients@, rows@),
                weight,
                b,
            )
            &&& amount(final(out)@[at + 1]) == amount(old(out)@[at + 1]) + sums::total_in_bin(
                own,
                values_of_rows(hessians@, rows@),
                weight,
                b,
            )
        }),
{
    let own = bins_of_rows(bins@, num_data as int, f, rows@);
    let n = slot_off@.len() as int;
    let bounds = row_partition::with_sentinel(slot_off@, slot_len);
    let grad = leaf_histogram::picked(gradients@, rows@);
    let hess = leaf_histogram::picked(hessians@, rows@);
    assert(values_of_rows(gradients@, rows@) =~= grad);
    assert(values_of_rows(hessians@, rows@) =~= hess);
    assert(slot_off@[f] <= slot_len);
    if f + 1 < slot_off@.len() {
        assert(slot_off@[f + 1] <= slot_len);
    }
    if row_partition::widest(bounds, n) > fixed_build::HIST_LDS_MAX {
        histograms::row_build_adds_each_bin(
            *add_to,
            bins@,
            num_data as int,
            rows@,
            grad,
            hess,
            bounds,
            n,
            old(out)@,
            final(out)@,
            own,
            amount,
            weight,
            f,
            b,
        );
    } else {
        histograms::grouped_build_adds_each_bin(
            *add_to,
            *merge,
            zero,
            choice.groups(rows@.len() as int, n, false),
            bins@,
            num_data as int,
            rows@,
            grad,
            hess,
            bounds,
            n,
            old(out)@,
            final(out)@,
            own,
            amount,
            weight,
            f,
            b,
        );
    }
}

/// A quantised build that is read back gives in each cell the scaled exact sum of its bin, for a feature
/// whose region is its slot and where the regions stand one behind the other.
pub proof fn fixed_point_histogram_is_the_scaled_sum<C: Copy, F: Fn(i64) -> C>(
    scale: &F,
    zero: C,
    bins: &BinColumn,
    num_data: usize,
    slot_off: &[usize],
    slot_len: usize,
    rows: &[u32],
    gradients: &[i64],
    hessians: &[i64],
    feats: &[(usize, u32, i32, u32)],
    choice: &GroupChoice<'_>,
    resident_gh: bool,
    may_overflow: bool,
    r: Result<Vec<C>, ComputeError>,
    f: int,
    b: int,
)
    requires
        call_ensures(
            resident_build::build_fix_compact_resident_f64_on::<C, F>,
            (
                scale,
                zero,
                bins,
                num_data,
                slot_off,
                slot_len,
                rows,
                gradients,
                hessians,
                feats,
                choice,
                resident_gh,
                may_overflow,
            ),
            r,
        ),
        r is Ok,
        slot_len <= u32::MAX,
        feats@.len() == slot_off@.len(),
        forall|k: int| 0 <= k < feats@.len() ==> (#[trigger] feats@[k]).0 == slot_off@[k],
        forall|k: int, j: int|
            0 <= k < j < feats@.len() ==> (#[trigger] feats@[k]).0 + 2 * feats@[k].1 <= (#[trigger] feats@[j]).0,
        forall|k: int| 0 <= k < feats@.len() ==> (#[trigger] feats@[k]).0 + 2 * feats@[k].1 <= slot_len,
        0 <= f < feats@.len(),
        0 <= feats@[f].2 <= b < feats@[f].1,
    ensures
        ({
            let own = bins_of_rows(bins@, num_data as int, f, rows@);
            let at = feats@[f].0 + 2 * (b - feats@[f].2);
            let g = sums::total_in_bin(own, values_of_rows(gradients@, rows@), histograms::fixed_value(), b);
            let h = sums::total_in_bin(own, values_of_rows(hessians@, rows@), histograms::fixed_value(), b);
            &&& i64::MIN <= g <= i64::MAX
            &&& i64::MIN <= h <= i64::MAX
            &&& call_ensures(*scale, (g as i64,), r->Ok_0@[at])
            &&& call_ensures(*scale, (h as i64,), r->Ok_0@[at + 1])
        }),
{
    let own = bins_of_rows(bins@, num_data as int, f, rows@);
    let grad = leaf_histogram::picked(gradients@, rows@);
    let hess = leaf_histogram::picked(hessians@, rows@);
    let bounds = row_partition::with_sentinel(slot_off@, slot_len);
    let n = slot_off@.len() as int;
    assert(values_of_rows(gradients@, rows@) =~= grad);
    assert(values_of_rows(hessians@, rows@) =~= hess);
    let raw = choose|raw: Seq<u64>| #[trigger]
        fixed_build::is_fixed_build(
            bins@,
            num_data as int,
            rows@,
            grad,
            hess,
            bounds,
            n,
            histogram::filled(slot_len as int, 0u64),
            raw,
        ) && resident_build::cells_are_exact(bins@, num_data as int, rows@, grad, hess, bounds, n, raw)
            && fix_compact::is_fix_compact(*scale, zero, raw, feats@, r->Ok_0@);
    assert(raw.len() == slot_len);
    assert(feats@[f].0 == slot_off@[f]);
    assert(feats@[f].0 + 2 * feats@[f].1 <= slot_len);
    if f + 1 < n {
        assert(feats@[f + 1].0 == slot_off@[f + 1]);
        assert(feats@[f].0 + 2 * feats@[f].1 <= feats@[f + 1].0);
        assert(feats@[f + 1].0 + 2 * feats@[f + 1].1 <= slot_len);
    }
    assert(bounds[f] == slot_off@[f]);
    histograms::exact_cells_are_their_bins(
        bins@,
        num_data as int,
        rows@,
        grad,
        hess,
        bounds,
        n,
        raw,
        own,
        f,
        b,
    );
    histograms::compacted_cell_is_the_scaled_raw_cell(*scale, zero, raw, feats@, r->Ok_0@, f, 2 * b);
    histograms::compacted_cell_is_the_scaled_raw_cell(*scale, zero, raw, feats@, r->Ok_0@, f, 2 * b + 1);
}

/// Each output is the conversion of the input at its place.
pub proof fn outputs_are_converted_one_by_one<C: Copy, F: Fn(C) -> C>(
    convert: &F,
    input: &[C],
    out: Vec<C>,
    i: int,
)
    requires
        call_ensures(objective_binary::sigmoid_convert_output_on::<C, F>, (convert, input), out),
        0 <= i < input@.len(),
    ensures
        out@.len() == input@.len(),
        call_ensures(*convert, (input@[i],), out@[i]),
{
}

/// The handles of a pool are those of the slots that the parent and its children have.
pub proof fn handles_are_of_their_slots<H>(arena: &HistArena<H>, parent: &H, smaller: &H, larger: &H)
    requires
        call_ensures(HistArena::<H>::parent_handle, (arena,), parent),
        call_ensures(HistArena::<H>::smaller_handle, (arena,), smaller),
        call_ensures(HistArena::<H>::larger_handle, (arena,), larger),
    ensures
        *parent == arena@.slots[arena@.parent],
        *smaller == arena@.slots[arena@.smaller],
        *larger == arena@.slots[arena@.larger],
{
}

} // verus!
