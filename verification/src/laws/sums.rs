//! What the cells of a histogram come to, in arithmetic that adds exactly.
//!
//! The builds take their addition and subtraction as functions. Here a cell and a value each stand
//! for an integer, and the functions are those that add and take off these integers. Every cell is
//! then the sum of the values of the rows in its bin, whatever the order of the additions is.
use crate::fold;
use crate::kernels::data_partition;
use crate::kernels::hist_region;
use crate::kernels::histogram;
use crate::kernels::leaf_histogram;
use crate::stable;
use vstd::prelude::*;

verus! {

/// The operation adds the integer that a value stands for.
pub open spec fn adds<C, V, F: Fn(C, V) -> C>(
    op: F,
    amount: spec_fn(C) -> int,
    weight: spec_fn(V) -> int,
) -> bool {
    forall|c: C, v: V, r: C| #[trigger] call_ensures(op, (c, v), r) ==> amount(r) == amount(c) + weight(v)
}

/// The operation takes off the integer that a cell stands for.
pub open spec fn takes_off<C, F: Fn(C, C) -> C>(op: F, amount: spec_fn(C) -> int) -> bool {
    forall|c: C, v: C, r: C| #[trigger] call_ensures(op, (c, v), r) ==> amount(r) == amount(c) - amount(v)
}

/// The sum of all values.
pub open spec fn total<V>(values: Seq<V>, weight: spec_fn(V) -> int) -> int
    decreases values.len(),
{
    if values.len() == 0 {
        0
    } else {
        total(values.drop_last(), weight) + weight(values.last())
    }
}

/// The sum of the values that stand in a bin.
pub open spec fn total_in_bin<V>(bins: Seq<u32>, values: Seq<V>, weight: spec_fn(V) -> int, b: int) -> int
    decreases values.len(),
{
    if values.len() == 0 {
        0
    } else {
        total_in_bin(bins.drop_last(), values.drop_last(), weight, b) + (if bins.last() == b {
            weight(values.last())
        } else {
            0
        })
    }
}

/// The sum of the values of those rows whose entry in a column is the bin.
pub open spec fn rows_in_bin<V>(
    rows: Seq<u32>,
    column: Seq<u32>,
    values: Seq<V>,
    weight: spec_fn(V) -> int,
    b: int,
) -> int
    decreases rows.len(),
{
    if rows.len() == 0 {
        0
    } else {
        let row = rows.last() as int;
        rows_in_bin(rows.drop_last(), column, values, weight, b) + (if column[row] == b {
            weight(values[row])
        } else {
            0
        })
    }
}

/// The sum of the values of some rows.
pub open spec fn rows_total<V>(rows: Seq<u32>, values: Seq<V>, weight: spec_fn(V) -> int) -> int
    decreases rows.len(),
{
    if rows.len() == 0 {
        0
    } else {
        rows_total(rows.drop_last(), values, weight) + weight(values[rows.last() as int])
    }
}

/// The sum of one side of the first bins of a histogram.
pub open spec fn side_total<C>(cells: Seq<C>, amount: spec_fn(C) -> int, side: int, upto: int) -> int
    decreases upto,
{
    if upto <= 0 {
        0
    } else {
        side_total(cells, amount, side, upto - 1) + amount(cells[2 * (upto - 1) + side])
    }
}

/// A fold with an operation that adds comes to the start and all values.
pub proof fn fold_adds_the_total<C, V, F: Fn(C, V) -> C>(
    op: F,
    start: C,
    values: Seq<V>,
    result: C,
    amount: spec_fn(C) -> int,
    weight: spec_fn(V) -> int,
)
    requires
        fold::folds_to(op, start, values, result),
        adds(op, amount, weight),
    ensures
        amount(result) == amount(start) + total(values, weight),
    decreases values.len(),
{
    if values.len() > 0 {
        let before = choose|before: C|
            fold::folds_to(op, start, values.drop_last(), before) && #[trigger] call_ensures(
                op,
                (before, values.last()),
                result,
            );
        fold_adds_the_total(op, start, values.drop_last(), before, amount, weight);
    }
}

proof fn fold_takes_the_total<C, F: Fn(C, C) -> C>(
    op: F,
    start: C,
    values: Seq<C>,
    result: C,
    amount: spec_fn(C) -> int,
)
    requires
        fold::folds_to(op, start, values, result),
        takes_off(op, amount),
    ensures
        amount(result) == amount(start) - total(values, amount),
    decreases values.len(),
{
    if values.len() > 0 {
        let before = choose|before: C|
            fold::folds_to(op, start, values.drop_last(), before) && #[trigger] call_ensures(
                op,
                (before, values.last()),
                result,
            );
        fold_takes_the_total(op, start, values.drop_last(), before, amount);
    }
}

proof fn chosen_total<V>(bins: Seq<u32>, values: Seq<V>, marks: Seq<bool>, weight: spec_fn(V) -> int, b: int)
    requires
        bins.len() == values.len(),
        marks.len() == values.len(),
        forall|i: int| 0 <= i < values.len() ==> #[trigger] marks[i] == (bins[i] == b),
    ensures
        total(stable::chosen(values, marks, true), weight) == total_in_bin(bins, values, weight, b),
    decreases values.len(),
{
    if values.len() > 0 {
        let n = values.len() - 1;
        chosen_total(bins.drop_last(), values.drop_last(), marks.drop_last(), weight, b);
        assert(marks[n] == (bins[n] == b));
        let rest = stable::chosen(values.drop_last(), marks.drop_last(), true);
        assert(rest.push(values.last()).drop_last() =~= rest);
    }
}

/// After a histogram is added to, the even cell of a bin holds the gradients of the rows in the bin on
/// top of what it held, and the odd cell the hessians. Cells past the bins stay as they are.
pub proof fn cells_hold_their_bins<C, V, F: Fn(C, V) -> C>(
    add_to: F,
    before: Seq<C>,
    binned: Seq<u32>,
    grad: Seq<V>,
    hess: Seq<V>,
    num_bin: u32,
    after: Seq<C>,
    amount: spec_fn(C) -> int,
    weight: spec_fn(V) -> int,
    b: int,
)
    requires
        histogram::is_histogram(add_to, before, binned, grad, hess, num_bin, after),
        adds(add_to, amount, weight),
        binned.len() == grad.len(),
        binned.len() == hess.len(),
        2 * num_bin <= before.len(),
        0 <= b,
        2 * b + 1 < before.len(),
    ensures
        after.len() == before.len(),
        b < num_bin ==> amount(after[2 * b]) == amount(before[2 * b]) + total_in_bin(binned, grad, weight, b),
        b < num_bin ==> amount(after[2 * b + 1]) == amount(before[2 * b + 1]) + total_in_bin(
            binned,
            hess,
            weight,
            b,
        ),
        b >= num_bin ==> after[2 * b] == before[2 * b] && after[2 * b + 1] == before[2 * b + 1],
{
    if b < num_bin {
        let marks = histogram::in_bin(binned, b);
        assert((2 * b) % 2 == 0 && (2 * b) / 2 == b);
        assert((2 * b + 1) % 2 == 1 && (2 * b + 1) / 2 == b);
        fold_adds_the_total(
            add_to,
            before[2 * b],
            histogram::cell_values(binned, grad, hess, 2 * b),
            after[2 * b],
            amount,
            weight,
        );
        fold_adds_the_total(
            add_to,
            before[2 * b + 1],
            histogram::cell_values(binned, grad, hess, 2 * b + 1),
            after[2 * b + 1],
            amount,
            weight,
        );
        chosen_total(binned, grad, marks, weight, b);
        chosen_total(binned, hess, marks, weight, b);
    }
}

proof fn bins_share_the_values<V>(bins: Seq<u32>, values: Seq<V>, weight: spec_fn(V) -> int, upto: int) -> (sum: int)
    requires
        bins.len() == values.len(),
        0 <= upto,
    ensures
        sum == bins_total(bins, values, weight, upto),
        (forall|i: int| 0 <= i < bins.len() ==> #[trigger] bins[i] < upto) ==> sum == total(values, weight),
    decreases values.len(),
{
    if values.len() > 0 {
        let rest = bins_share_the_values(bins.drop_last(), values.drop_last(), weight, upto);
        one_bin_gets_the_last(bins, values, weight, upto);
        if forall|i: int| 0 <= i < bins.len() ==> #[trigger] bins[i] < upto {
            assert(bins[bins.len() - 1] < upto);
            assert forall|i: int| 0 <= i < bins.drop_last().len() implies #[trigger] bins.drop_last()[i] < upto by {
                assert(bins[i] < upto);
            }
        }
    } else {
        empty_bins(bins, values, weight, upto);
    }
    bins_total(bins, values, weight, upto)
}

/// The sum of what the first bins hold.
pub open spec fn bins_total<V>(bins: Seq<u32>, values: Seq<V>, weight: spec_fn(V) -> int, upto: int) -> int
    decreases upto,
{
    if upto <= 0 {
        0
    } else {
        bins_total(bins, values, weight, upto - 1) + total_in_bin(bins, values, weight, upto - 1)
    }
}

proof fn empty_bins<V>(bins: Seq<u32>, values: Seq<V>, weight: spec_fn(V) -> int, upto: int)
    requires
        values.len() == 0,
    ensures
        bins_total(bins, values, weight, upto) == 0,
    decreases upto,
{
    if upto > 0 {
        empty_bins(bins, values, weight, upto - 1);
    }
}

proof fn one_bin_gets_the_last<V>(bins: Seq<u32>, values: Seq<V>, weight: spec_fn(V) -> int, upto: int)
    requires
        bins.len() == values.len(),
        values.len() > 0,
        0 <= upto,
    ensures
        bins_total(bins, values, weight, upto) == bins_total(bins.drop_last(), values.drop_last(), weight, upto)
            + (if bins.last() < upto {
            weight(values.last())
        } else {
            0
        }),
    decreases upto,
{
    if upto > 0 {
        one_bin_gets_the_last(bins, values, weight, upto - 1);
    }
}

/// The gradient cells of a histogram that starts empty add up to the gradients of all rows, and the
/// hessian cells to the hessians.
pub proof fn cells_add_up_to_the_rows<C, V, F: Fn(C, V) -> C>(
    add_to: F,
    zero: C,
    binned: Seq<u32>,
    grad: Seq<V>,
    hess: Seq<V>,
    num_bin: u32,
    after: Seq<C>,
    amount: spec_fn(C) -> int,
    weight: spec_fn(V) -> int,
)
    requires
        histogram::is_histogram(
            add_to,
            histogram::filled(2 * num_bin, zero),
            binned,
            grad,
            hess,
            num_bin,
            after,
        ),
        adds(add_to, amount, weight),
        amount(zero) == 0,
        binned.len() == grad.len(),
        binned.len() == hess.len(),
        forall|i: int| 0 <= i < binned.len() ==> #[trigger] binned[i] < num_bin,
    ensures
        side_total(after, amount, 0, num_bin as int) == total(grad, weight),
        side_total(after, amount, 1, num_bin as int) == total(hess, weight),
{
    bins_share_the_values(binned, grad, weight, num_bin as int);
    bins_share_the_values(binned, hess, weight, num_bin as int);
    sides_hold_the_bins(add_to, zero, binned, grad, hess, num_bin, after, amount, weight, num_bin as int);
}

proof fn sides_hold_the_bins<C, V, F: Fn(C, V) -> C>(
    add_to: F,
    zero: C,
    binned: Seq<u32>,
    grad: Seq<V>,
    hess: Seq<V>,
    num_bin: u32,
    after: Seq<C>,
    amount: spec_fn(C) -> int,
    weight: spec_fn(V) -> int,
    upto: int,
)
    requires
        histogram::is_histogram(
            add_to,
            histogram::filled(2 * num_bin, zero),
            binned,
            grad,
            hess,
            num_bin,
            after,
        ),
        adds(add_to, amount, weight),
        amount(zero) == 0,
        binned.len() == grad.len(),
        binned.len() == hess.len(),
        0 <= upto <= num_bin,
    ensures
        side_total(after, amount, 0, upto) == bins_total(binned, grad, weight, upto),
        side_total(after, amount, 1, upto) == bins_total(binned, hess, weight, upto),
    decreases upto,
{
    if upto > 0 {
        sides_hold_the_bins(add_to, zero, binned, grad, hess, num_bin, after, amount, weight, upto - 1);
        let start = histogram::filled(2 * num_bin, zero);
        cells_hold_their_bins(add_to, start, binned, grad, hess, num_bin, after, amount, weight, upto - 1);
    }
}

proof fn removed_total<C>(values: Seq<C>, amount: spec_fn(C) -> int, b: int)
    requires
        0 <= b < values.len(),
    ensures
        total(values.remove(b), amount) == total(values, amount) - amount(values[b]),
    decreases values.len(),
{
    let n = values.len() - 1;
    if b == n {
        assert(values.remove(b) =~= values.drop_last());
    } else {
        removed_total(values.drop_last(), amount, b);
        assert(values.remove(b).drop_last() =~= values.drop_last().remove(b));
        assert(values.remove(b).last() == values.last());
    }
}

proof fn side_cells_total<C>(cells: Seq<C>, amount: spec_fn(C) -> int, side: int, upto: int)
    requires
        0 <= upto <= cells.len() / 2,
    ensures
        total(hist_region::side_cells(cells, side).take(upto), amount) == side_total(cells, amount, side, upto),
    decreases upto,
{
    let all = hist_region::side_cells(cells, side);
    if upto > 0 {
        side_cells_total(cells, amount, side, upto - 1);
        assert(all.take(upto).drop_last() =~= all.take(upto - 1));
    } else {
        assert(all.take(0).len() == 0);
    }
}

/// Two histograms that differ in one bin differ in their sums by what the bin does.
pub proof fn other_cells_agree<C>(a: Seq<C>, z: Seq<C>, amount: spec_fn(C) -> int, side: int, b: int, upto: int)
    requires
        0 <= b,
        0 <= side < 2,
        2 * upto <= a.len(),
        a.len() == z.len(),
        forall|c: int| 0 <= c < a.len() && c / 2 != b ==> #[trigger] z[c] == a[c],
    ensures
        side_total(z, amount, side, upto) == side_total(a, amount, side, upto) + (if b < upto {
            amount(z[2 * b + side]) - amount(a[2 * b + side])
        } else {
            0
        }),
    decreases upto,
{
    if upto > 0 {
        other_cells_agree(a, z, amount, side, b, upto - 1);
        if upto - 1 != b {
            assert((2 * (upto - 1) + side) / 2 == upto - 1);
            assert(z[2 * (upto - 1) + side] == a[2 * (upto - 1) + side]);
        }
    }
}

/// Where the most frequent bin is repaired, the gradient cells add up to the leaf's gradient sum and
/// the hessian cells to its hessian sum. No other bin changes; and without a repair none does.
pub proof fn repaired_cells_add_up_to_the_sums<C, F: Fn(C, C) -> C>(
    take_off: F,
    before: Seq<C>,
    most_freq_bin: u32,
    sum_gradient: C,
    sum_hessian: C,
    after: Seq<C>,
    amount: spec_fn(C) -> int,
)
    requires
        hist_region::is_repaired(take_off, before, most_freq_bin, sum_gradient, sum_hessian, after),
        takes_off(take_off, amount),
    ensures
        after.len() == before.len(),
        0 < most_freq_bin < before.len() / 2 ==> side_total(after, amount, 0, before.len() as int / 2) == amount(
            sum_gradient,
        ),
        0 < most_freq_bin < before.len() / 2 ==> side_total(after, amount, 1, before.len() as int / 2) == amount(
            sum_hessian,
        ),
        forall|c: int| 0 <= c < before.len() && c / 2 != most_freq_bin ==> #[trigger] after[c] == before[c],
        !(0 < most_freq_bin < before.len() / 2) ==> after == before,
{
    let b = most_freq_bin as int;
    let n = before.len() as int / 2;
    if 0 < b < n {
        let g = hist_region::side_cells(before, 0);
        let h = hist_region::side_cells(before, 1);
        fold_takes_the_total(take_off, sum_gradient, g.remove(b), after[2 * b], amount);
        fold_takes_the_total(take_off, sum_hessian, h.remove(b), after[2 * b + 1], amount);
        removed_total(g, amount, b);
        removed_total(h, amount, b);
        side_cells_total(before, amount, 0, n);
        side_cells_total(before, amount, 1, n);
        assert(g.take(n) =~= g);
        assert(h.take(n) =~= h);
        other_cells_agree(before, after, amount, 0, b, n);
        other_cells_agree(before, after, amount, 1, b, n);
    }
}

/// A compacted histogram is the former one without its leading bins: bin `b` stands where the offset
/// takes it to, both cells of it, and the room left behind holds zeros.
pub proof fn compaction_keeps_each_bin<C>(hist: Seq<C>, offset: int, zero: C, c: int)
    requires
        hist.len() % 2 == 0,
        0 <= c < hist.len(),
    ensures
        hist_region::compacted(hist, offset, zero).len() == hist.len(),
        offset <= 0 ==> hist_region::compacted(hist, offset, zero) == hist,
        offset > 0 && c - 2 * offset >= 0 ==> hist_region::compacted(hist, offset, zero)[c - 2 * offset] == hist[c],
        offset > 0 && c >= hist.len() - 2 * offset ==> hist_region::compacted(hist, offset, zero)[c] == zero,
{
}

/// The sum of a bin over gathered rows is that over the rows themselves.
pub proof fn gathered_total<V>(rows: Seq<u32>, column: Seq<u32>, values: Seq<V>, weight: spec_fn(V) -> int, b: int)
    ensures
        total_in_bin(
            data_partition::gathered(column, rows),
            leaf_histogram::picked(values, rows),
            weight,
            b,
        ) == rows_in_bin(rows, column, values, weight, b),
        total(leaf_histogram::picked(values, rows), weight) == rows_total(rows, values, weight),
    decreases rows.len(),
{
    if rows.len() > 0 {
        gathered_total(rows.drop_last(), column, values, weight, b);
        let bins = data_partition::gathered(column, rows);
        let own = leaf_histogram::picked(values, rows);
        assert(bins.drop_last() =~= data_partition::gathered(column, rows.drop_last()));
        assert(own.drop_last() =~= leaf_histogram::picked(values, rows.drop_last()));
    }
}

} // verus!
