//! Gradient and hessian histograms of a feature, folded in row order.
//!
//! A histogram of `n` bins has `2 * n` cells: bin `b` has its gradient sum in cell `2 * b` and
//! its hessian sum in cell `2 * b + 1`. The cell type and the addition into a cell are the
//! caller's.
use crate::error;
use crate::error::{ComputeError, Fault};
use crate::fold;
use crate::kernels::data_partition;
use crate::stable;
use crate::text;
use vstd::prelude::*;

verus! {

/// Which rows have bin `b`.
pub open spec fn in_bin(binned: Seq<u32>, b: int) -> Seq<bool> {
    Seq::new(binned.len(), |i: int| binned[i] == b)
}

/// The values that cell `c` of a histogram takes in: the gradients, or the hessians, of the rows
/// in the cell's bin, in row order.
pub open spec fn cell_values<V>(binned: Seq<u32>, grad: Seq<V>, hess: Seq<V>, c: int) -> Seq<V> {
    stable::chosen(
        if c % 2 == 0 {
            grad
        } else {
            hess
        },
        in_bin(binned, c / 2),
        true,
    )
}

/// `after` is `before` with every cell of the first `num_bin` bins folded on, in row order; the
/// other cells are as they were.
pub open spec fn is_histogram<C, V, F: Fn(C, V) -> C>(
    add_to: F,
    before: Seq<C>,
    binned: Seq<u32>,
    grad: Seq<V>,
    hess: Seq<V>,
    num_bin: u32,
    after: Seq<C>,
) -> bool {
    &&& after.len() == before.len()
    &&& forall|c: int|
        0 <= c < 2 * num_bin ==> fold::folds_to(
            add_to,
            before[c],
            cell_values(binned, grad, hess, c),
            #[trigger] after[c],
        )
    &&& forall|c: int| 2 * num_bin <= c < before.len() ==> #[trigger] after[c] == before[c]
}

/// `n` cells that all hold `zero`.
pub open spec fn filled<C>(n: int, zero: C) -> Seq<C> {
    Seq::new(n as nat, |c: int| zero)
}

/// The text of the fault of a histogram that has too many cells.
pub open spec fn allocation_text(num_bin: u32) -> Seq<char> {
    "num_bin "@ + text::decimal(num_bin as nat) + " overflows the histogram allocation size"@
}

/// The fault of a histogram's inputs: gradients or hessians that are not one per row, too many
/// cells, or a bin out of range.
pub open spec fn histogram_fault(binned: Seq<u32>, grads: nat, hesses: nat, num_bin: u32) -> Option<Fault> {
    if grads != binned.len() {
        Some(Fault::LengthMismatch { expected: binned.len(), actual: grads })
    } else if hesses != binned.len() {
        Some(Fault::LengthMismatch { expected: binned.len(), actual: hesses })
    } else if 2 * num_bin > usize::MAX {
        Some(Fault::Runtime(allocation_text(num_bin)))
    } else {
        data_partition::first_bad_bin(binned, num_bin, 0)
    }
}

/// The fault of a fold into `cells` cells.
pub open spec fn accumulate_fault(
    binned: Seq<u32>,
    grads: nat,
    hesses: nat,
    num_bin: u32,
    cells: nat,
) -> Option<Fault> {
    match histogram_fault(binned, grads, hesses, num_bin) {
        Some(fault) => Some(fault),
        None => if cells < 2 * num_bin {
            Some(Fault::LengthMismatch { expected: 2 * num_bin as nat, actual: cells })
        } else {
            None
        },
    }
}

/// One more row goes to the cells of its own bin alone.
proof fn cell_values_extend<V>(binned: Seq<u32>, grad: Seq<V>, hess: Seq<V>, i: int, c: int)
    requires
        0 <= i < binned.len(),
        grad.len() == binned.len(),
        hess.len() == binned.len(),
    ensures
        cell_values(binned.take(i + 1), grad.take(i + 1), hess.take(i + 1), c) == (if binned[i] == c / 2 {
            cell_values(binned.take(i), grad.take(i), hess.take(i), c).push(
                if c % 2 == 0 {
                    grad[i]
                } else {
                    hess[i]
                },
            )
        } else {
            cell_values(binned.take(i), grad.take(i), hess.take(i), c)
        }),
{
    let values = if c % 2 == 0 {
        grad
    } else {
        hess
    };
    let marks = in_bin(binned, c / 2);
    assert(in_bin(binned.take(i), c / 2) =~= marks.take(i));
    assert(in_bin(binned.take(i + 1), c / 2) =~= marks.take(i + 1));
    stable::chosen_extends(values, marks, i, true);
}

/// Two histograms of the same rows, folded from the same cells with an operation that is a
/// function, are equal in every cell.
pub proof fn histogram_is_unique<C, V, F: Fn(C, V) -> C>(
    add_to: F,
    before: Seq<C>,
    binned: Seq<u32>,
    grad: Seq<V>,
    hess: Seq<V>,
    num_bin: u32,
    a: Seq<C>,
    b: Seq<C>,
)
    requires
        fold::is_function(add_to),
        is_histogram(add_to, before, binned, grad, hess, num_bin, a),
        is_histogram(add_to, before, binned, grad, hess, num_bin, b),
    ensures
        a == b,
{
    assert forall|c: int| 0 <= c < a.len() implies a[c] == b[c] by {
        if c < 2 * num_bin {
            fold::fold_is_unique(add_to, before[c], cell_values(binned, grad, hess, c), a[c], b[c]);
        }
    }
    assert(a =~= b);
}

/// Check a histogram's inputs; the result is its number of cells.
pub fn validate_histogram_inputs<V>(binned: &[u32], grad: &[V], hess: &[V], num_bin: u32) -> (r: Result<
    usize,
    ComputeError,
>)
    ensures
        error::fails_as(r, histogram_fault(binned@, grad@.len(), hess@.len(), num_bin)),
        r matches Ok(cells) ==> cells == 2 * num_bin,
{
    if grad.len() != binned.len() {
        return Err(ComputeError::LengthMismatch { expected: binned.len(), actual: grad.len() });
    }
    if hess.len() != binned.len() {
        return Err(ComputeError::LengthMismatch { expected: binned.len(), actual: hess.len() });
    }
    let out_len: usize = match 2usize.checked_mul(num_bin as usize) {
        Some(cells) => cells,
        None => {
            let mut detail: String = "num_bin ".to_owned();
            text::push_decimal(&mut detail, num_bin as u64);
            detail.append(" overflows the histogram allocation size");
            return Err(ComputeError::Runtime { detail });
        },
    };
    let n: usize = binned.len();
    let mut row: usize = 0;
    while row < n
        invariant
            row <= n,
            n == binned@.len(),
            grad@.len() == n,
            hess@.len() == n,
            2 * num_bin <= usize::MAX,
            data_partition::first_bad_bin(binned@, num_bin, 0) == data_partition::first_bad_bin(
                binned@,
                num_bin,
                row as int,
            ),
        decreases n - row,
    {
        let bin: u32 = binned[row];
        if bin >= num_bin {
            return Err(ComputeError::BinIndexOutOfRange { row, bin, num_bin });
        }
        row += 1;
    }
    Ok(out_len)
}

/// Fold the gradients and hessians of the rows into the cells of their bins, in row order.
pub fn construct_hist_kernel<C: Copy, V: Copy, F: Fn(C, V) -> C>(
    add_to: &F,
    binned: &[u32],
    grad: &[V],
    hess: &[V],
    num_bin: u32,
    out: &mut [C],
)
    requires
        fold::is_total(*add_to),
        grad@.len() == binned@.len(),
        hess@.len() == binned@.len(),
        2 * num_bin <= old(out)@.len(),
        forall|i: int| 0 <= i < binned@.len() ==> #[trigger] binned@[i] < num_bin,
    ensures
        is_histogram(*add_to, old(out)@, binned@, grad@, hess@, num_bin, final(out)@),
{
    let ghost before = out@;
    let n: usize = binned.len();
    let cells: usize = out.len();
    let mut i: usize = 0;
    while i < n
        invariant
            i <= n,
            n == binned@.len(),
            cells == out@.len(),
            fold::is_total(*add_to),
            grad@.len() == binned@.len(),
            hess@.len() == binned@.len(),
            2 * num_bin <= cells,
            before.len() == cells,
            forall|k: int| 0 <= k < binned@.len() ==> #[trigger] binned@[k] < num_bin,
            is_histogram(
                *add_to,
                before,
                binned@.take(i as int),
                grad@.take(i as int),
                hess@.take(i as int),
                num_bin,
                out@,
            ),
        decreases n - i,
    {
        let ghost held = out@;
        let ti: usize = binned[i] as usize * 2;
        let g: C = add_to(out[ti], grad[i]);
        out[ti] = g;
        let h: C = add_to(out[ti + 1], hess[i]);
        out[ti + 1] = h;
        proof {
            assert forall|c: int| 0 <= c < 2 * num_bin implies fold::folds_to(
                *add_to,
                before[c],
                cell_values(binned@.take(i + 1), grad@.take(i + 1), hess@.take(i + 1), c),
                #[trigger] out@[c],
            ) by {
                cell_values_extend(binned@, grad@, hess@, i as int, c);
                let held_values = cell_values(
                    binned@.take(i as int),
                    grad@.take(i as int),
                    hess@.take(i as int),
                    c,
                );
                assert(fold::folds_to(*add_to, before[c], held_values, held[c]));
                if c == ti {
                    fold::fold_extends(*add_to, before[c], held_values, held[c], grad@[i as int], g);
                } else if c == ti + 1 {
                    fold::fold_extends(*add_to, before[c], held_values, held[c], hess@[i as int], h);
                }
            }
        }
        i += 1;
    }
    assert(binned@.take(i as int) =~= binned@);
    assert(grad@.take(i as int) =~= grad@);
    assert(hess@.take(i as int) =~= hess@);
}

/// A histogram buffer of `n` cells that all hold `zero`.
pub fn zeroed<C: Copy>(n: usize, zero: C) -> (cells: Vec<C>)
    ensures
        cells@ == filled(n as int, zero),
{
    let mut cells: Vec<C> = Vec::with_capacity(n);
    let mut i: usize = 0;
    while i < n
        invariant
            i <= n,
            cells@ == filled(i as int, zero),
        decreases n - i,
    {
        cells.push(zero);
        i += 1;
        assert(cells@ =~= filled(i as int, zero));
    }
    cells
}

/// Fold the rows into the first `2 * num_bin` cells of `out`, which may hold any value and keep
/// their contents as the start of the fold. Nothing is written where the inputs are refused.
pub fn accumulate_histogram_into<C: Copy, V: Copy, F: Fn(C, V) -> C>(
    add_to: &F,
    binned: &[u32],
    grad: &[V],
    hess: &[V],
    num_bin: u32,
    out: &mut [C],
) -> (r: Result<(), ComputeError>)
    requires
        fold::is_total(*add_to),
    ensures
        error::fails_as(
            r,
            accumulate_fault(binned@, grad@.len(), hess@.len(), num_bin, old(out)@.len()),
        ),
        r is Ok ==> is_histogram(*add_to, old(out)@, binned@, grad@, hess@, num_bin, final(out)@),
        r is Err ==> final(out)@ == old(out)@,
{
    let out_len: usize = validate_histogram_inputs(binned, grad, hess, num_bin)?;
    if out.len() < out_len {
        return Err(ComputeError::LengthMismatch { expected: out_len, actual: out.len() });
    }
    proof {
        data_partition::no_bad_bin(binned@, num_bin, 0);
    }
    construct_hist_kernel(add_to, binned, grad, hess, num_bin, out);
    Ok(())
}

/// The histogram of the given rows, folded in row order from cells that hold `zero`.
pub fn construct_histograms_f64_on<C: Copy, V: Copy, F: Fn(C, V) -> C>(
    add_to: &F,
    zero: C,
    binned: &[u32],
    grad: &[V],
    hess: &[V],
    num_bin: u32,
) -> (r: Result<Vec<C>, ComputeError>)
    requires
        fold::is_total(*add_to),
    ensures
        error::fails_as(r, histogram_fault(binned@, grad@.len(), hess@.len(), num_bin)),
        r matches Ok(out) ==> is_histogram(
            *add_to,
            filled(2 * num_bin, zero),
            binned@,
            grad@,
            hess@,
            num_bin,
            out@,
        ),
{
    construct_histograms_cpu_native(add_to, zero, binned, grad, hess, num_bin)
}

/// The histogram of the given rows on the reference device.
pub fn construct_histograms_cpu<C: Copy, V: Copy, F: Fn(C, V) -> C>(
    add_to: &F,
    zero: C,
    binned: &[u32],
    grad: &[V],
    hess: &[V],
    num_bin: u32,
) -> (r: Result<Vec<C>, ComputeError>)
    requires
        fold::is_total(*add_to),
    ensures
        error::fails_as(r, histogram_fault(binned@, grad@.len(), hess@.len(), num_bin)),
        r matches Ok(out) ==> is_histogram(
            *add_to,
            filled(2 * num_bin, zero),
            binned@,
            grad@,
            hess@,
            num_bin,
            out@,
        ),
{
    construct_histograms_f64_on(add_to, zero, binned, grad, hess, num_bin)
}

/// The histogram of the given rows, folded on the host.
pub fn construct_histograms_cpu_native<C: Copy, V: Copy, F: Fn(C, V) -> C>(
    add_to: &F,
    zero: C,
    binned: &[u32],
    grad: &[V],
    hess: &[V],
    num_bin: u32,
) -> (r: Result<Vec<C>, ComputeError>)
    requires
        fold::is_total(*add_to),
    ensures
        error::fails_as(r, histogram_fault(binned@, grad@.len(), hess@.len(), num_bin)),
        r matches Ok(out) ==> is_histogram(
            *add_to,
            filled(2 * num_bin, zero),
            binned@,
            grad@,
            hess@,
            num_bin,
            out@,
        ),
{
    let out_len: usize = validate_histogram_inputs(binned, grad, hess, num_bin)?;
    let mut out: Vec<C> = zeroed(out_len, zero);
    proof {
        data_partition::no_bad_bin(binned@, num_bin, 0);
    }
    construct_hist_kernel(add_to, binned, grad, hess, num_bin, out.as_mut_slice());
    Ok(out)
}

} // verus!
