//! The regions of the features in a leaf's histogram: their bounds, the repair of the most
//! frequent bin, and the compaction that drops leading bins.
use crate::error;
use crate::error::{ComputeError, Fault};
use crate::fold;
use crate::text;
use vstd::prelude::*;

verus! {

/// The cells of a histogram with `part` written from cell `at` on.
pub open spec fn pasted<C>(cells: Seq<C>, at: int, part: Seq<C>) -> Seq<C> {
    cells.take(at) + part + cells.skip(at + part.len())
}

/// The first `n` parts, written one after the other, each at its own place.
pub open spec fn overlaid<C>(cells: Seq<C>, at: Seq<int>, parts: Seq<Seq<C>>, n: int) -> Seq<C>
    decreases n,
{
    if n <= 0 {
        cells
    } else {
        pasted(overlaid(cells, at, parts, n - 1), at[n - 1], parts[n - 1])
    }
}

/// Every part lies within `len` cells.
pub open spec fn parts_fit<C>(len: int, at: Seq<int>, parts: Seq<Seq<C>>) -> bool {
    &&& at.len() == parts.len()
    &&& forall|i: int|
        0 <= i < parts.len() ==> 0 <= #[trigger] at[i] && at[i] + parts[i].len() <= len
}

/// Writing parts keeps the number of cells.
pub proof fn overlaid_len<C>(cells: Seq<C>, at: Seq<int>, parts: Seq<Seq<C>>, n: int)
    requires
        parts_fit(cells.len() as int, at, parts),
        0 <= n <= parts.len(),
    ensures
        overlaid(cells, at, parts, n).len() == cells.len(),
    decreases n,
{
    if n > 0 {
        overlaid_len(cells, at, parts, n - 1);
        assert(0 <= at[n - 1]);
    }
}

/// A further part does not change what the parts before it wrote.
pub proof fn overlay_ignores_later<C>(cells: Seq<C>, at: Seq<int>, parts: Seq<Seq<C>>, part: Seq<C>, n: int)
    requires
        0 <= n <= parts.len(),
    ensures
        overlaid(cells, at, parts.push(part), n) == overlaid(cells, at, parts, n),
    decreases n,
{
    if n > 0 {
        overlay_ignores_later(cells, at, parts, part, n - 1);
        assert(parts.push(part)[n - 1] == parts[n - 1]);
    }
}

/// Where no two parts overlap, every part stands at its place at the end, and a cell that no part
/// covers keeps its value.
pub proof fn disjoint_parts_stay<C>(cells: Seq<C>, at: Seq<int>, parts: Seq<Seq<C>>, n: int)
    requires
        parts_fit(cells.len() as int, at, parts),
        0 <= n <= parts.len(),
        forall|i: int, j: int|
            0 <= i < j < parts.len() ==> #[trigger] at[i] + parts[i].len() <= #[trigger] at[j],
    ensures
        overlaid(cells, at, parts, n).len() == cells.len(),
        forall|i: int|
            0 <= i < n ==> overlaid(cells, at, parts, n).subrange(at[i], at[i] + parts[i].len())
                == #[trigger] parts[i],
        forall|c: int|
            0 <= c < cells.len() && (forall|i: int|
                0 <= i < n ==> !(#[trigger] at[i] <= c < at[i] + parts[i].len()))
                ==> #[trigger] overlaid(cells, at, parts, n)[c] == cells[c],
    decreases n,
{
    if n > 0 {
        disjoint_parts_stay(cells, at, parts, n - 1);
        let held = overlaid(cells, at, parts, n - 1);
        let now = overlaid(cells, at, parts, n);
        assert(0 <= at[n - 1]);
        assert forall|i: int| 0 <= i < n implies now.subrange(at[i], at[i] + parts[i].len())
            == #[trigger] parts[i] by {
            if i == n - 1 {
                assert(now.subrange(at[i], at[i] + parts[i].len()) =~= parts[i]);
            } else {
                assert(at[i] + parts[i].len() <= at[n - 1]);
                assert(now.subrange(at[i], at[i] + parts[i].len()) =~= held.subrange(
                    at[i],
                    at[i] + parts[i].len(),
                ));
            }
        }
    }
}

/// Write `part` into the cells from `at` on.
pub fn paste<C: Copy>(cells: &mut Vec<C>, at: usize, part: &[C])
    requires
        at + part@.len() <= old(cells)@.len(),
    ensures
        final(cells)@ == pasted(old(cells)@, at as int, part@),
{
    let ghost before = cells@;
    let n: usize = cells.len();
    let mut i: usize = 0;
    while i < part.len()
        invariant
            i <= part@.len(),
            at + part@.len() <= n,
            before.len() == n,
            cells@.len() == n,
            cells@ == pasted(before, at as int, part@.take(i as int)),
        decreases part@.len() - i,
    {
        cells.set(at + i, part[i]);
        i += 1;
        assert(cells@ =~= pasted(before, at as int, part@.take(i as int)));
    }
    assert(part@.take(i as int) =~= part@);
}

/// The gradient cells (`side` 0) or hessian cells (`side` 1) of a histogram, bin by bin.
pub open spec fn side_cells<C>(hist: Seq<C>, side: int) -> Seq<C> {
    Seq::new((hist.len() / 2) as nat, |b: int| hist[2 * b + side])
}

/// Whether a histogram of `cells` cells has its most frequent bin repaired.
pub open spec fn repairs(cells: int, most_freq_bin: u32) -> bool {
    0 < most_freq_bin < cells / 2
}

/// `after` is `before` with the most frequent bin set to the leaf's sums less every other bin,
/// taken off in bin order; bin 0 and a bin out of range stay as they are.
pub open spec fn is_repaired<C, F: Fn(C, C) -> C>(
    take_off: F,
    before: Seq<C>,
    most_freq_bin: u32,
    sum_gradient: C,
    sum_hessian: C,
    after: Seq<C>,
) -> bool {
    if repairs(before.len() as int, most_freq_bin) {
        let b = most_freq_bin as int;
        &&& after.len() == before.len()
        &&& fold::folds_to(take_off, sum_gradient, side_cells(before, 0).remove(b), after[2 * b])
        &&& fold::folds_to(take_off, sum_hessian, side_cells(before, 1).remove(b), after[2 * b + 1])
        &&& forall|c: int|
            0 <= c < before.len() && c / 2 != b ==> #[trigger] after[c] == before[c]
    } else {
        after == before
    }
}

/// A histogram without its first `offset` bins: the other bins move to the front, and the cells
/// behind them hold `zero`.
pub open spec fn compacted<C>(hist: Seq<C>, offset: int, zero: C) -> Seq<C> {
    if offset <= 0 {
        hist
    } else {
        Seq::new(
            hist.len(),
            |c: int|
                if c + 2 * offset < 2 * (hist.len() / 2) {
                    hist[c + 2 * offset]
                } else {
                    zero
                },
        )
    }
}

/// After compaction bin `b` is the former bin `b + offset`, as long as there is one.
pub proof fn compaction_shifts_bins<C>(hist: Seq<C>, offset: int, zero: C, b: int, side: int)
    requires
        0 <= offset,
        0 <= b,
        b + offset < hist.len() / 2,
        0 <= side < 2,
    ensures
        compacted(hist, offset, zero)[2 * b + side] == hist[2 * (b + offset) + side],
{
}

/// A leaf's sum less one side of every bin but `mfb`, taken off in bin order, in the region of
/// `num_bin` bins at cell `base`.
pub fn rest_of_bins<C: Copy, F: Fn(C, C) -> C>(
    take_off: &F,
    hist: &[C],
    base: usize,
    num_bin: usize,
    mfb: usize,
    side: usize,
    sum: C,
) -> (rest: C)
    requires
        fold::is_total(*take_off),
        base + 2 * num_bin <= hist@.len(),
        mfb < num_bin,
        side < 2,
    ensures
        fold::folds_to(
            *take_off,
            sum,
            side_cells(hist@.subrange(base as int, base + 2 * num_bin), side as int).remove(mfb as int),
            rest,
        ),
{
    let ghost all = side_cells(hist@.subrange(base as int, base + 2 * num_bin), side as int);
    let ghost others = all.remove(mfb as int);
    let cells: usize = hist.len();
    let mut rest: C = sum;
    let mut i: usize = 0;
    while i < num_bin
        invariant
            i <= num_bin,
            mfb < num_bin,
            side < 2,
            cells == hist@.len(),
            base + 2 * num_bin <= cells,
            all == side_cells(hist@.subrange(base as int, base + 2 * num_bin), side as int),
            others == all.remove(mfb as int),
            fold::is_total(*take_off),
            fold::folds_to(
                *take_off,
                sum,
                others.take(if i <= mfb {
                    i as int
                } else {
                    i - 1
                }),
                rest,
            ),
        decreases num_bin - i,
    {
        if i != mfb {
            let before = rest;
            let cell: C = hist[base + 2 * i + side];
            rest = take_off(before, cell);
            proof {
                let at = if i < mfb {
                    i as int
                } else {
                    i - 1
                };
                assert(all[i as int] == cell);
                fold::fold_extends(*take_off, sum, others.take(at), before, cell, rest);
                assert(others.take(at).push(cell) =~= others.take(at + 1));
            }
        }
        i += 1;
    }
    assert(others.take(num_bin - 1) =~= others);
    rest
}

/// Set the most frequent bin to the leaf's sums less every other bin, taken off in bin order.
pub fn fix_histogram<C: Copy, F: Fn(C, C) -> C>(
    take_off: &F,
    hist: &mut [C],
    most_freq_bin: u32,
    sum_gradient: C,
    sum_hessian: C,
)
    requires
        fold::is_total(*take_off),
    ensures
        is_repaired(*take_off, old(hist)@, most_freq_bin, sum_gradient, sum_hessian, final(hist)@),
{
    if most_freq_bin == 0 {
        return;
    }
    let num_bin: usize = hist.len() / 2;
    let mfb: usize = most_freq_bin as usize;
    if mfb >= num_bin {
        return;
    }
    let ghost before = hist@;
    let ghost paired = before.subrange(0, 2 * num_bin as int);
    assert(side_cells(paired, 0) =~= side_cells(before, 0));
    assert(side_cells(paired, 1) =~= side_cells(before, 1));
    let g: C = rest_of_bins(take_off, hist, 0, num_bin, mfb, 0, sum_gradient);
    let h: C = rest_of_bins(take_off, hist, 0, num_bin, mfb, 1, sum_hessian);
    hist[2 * mfb] = g;
    hist[2 * mfb + 1] = h;
}

/// Drop the first `offset` bins of a histogram, in place.
pub fn compact_histogram<C: Copy>(hist: &mut [C], offset: i32, zero: C)
    ensures
        final(hist)@ == compacted(old(hist)@, offset as int, zero),
{
    if offset <= 0 {
        return;
    }
    let ghost before = hist@;
    let off: usize = offset as usize;
    let cells: usize = hist.len();
    let num_bin: usize = cells / 2;
    let keep: usize = if off < num_bin {
        2 * (num_bin - off)
    } else {
        0
    };
    let mut c: usize = 0;
    while c < cells
        invariant
            c <= cells,
            cells == hist@.len(),
            cells == before.len(),
            num_bin == cells / 2,
            off == offset,
            offset > 0,
            keep == (if off < num_bin {
                2 * (num_bin - off)
            } else {
                0
            }),
            hist@ == compacted(before, offset as int, zero).take(c as int) + before.skip(c as int),
        decreases cells - c,
    {
        if c < keep {
            let moved: C = hist[c + 2 * off];
            hist[c] = moved;
        } else {
            hist[c] = zero;
        }
        c += 1;
        assert(hist@ =~= compacted(before, offset as int, zero).take(c as int) + before.skip(c as int));
    }
    assert(hist@ =~= compacted(before, offset as int, zero));
}

/// The fault of the region of `num_bin` bins at cell `slot_off`, in a histogram of `len` cells;
/// `owner` names the operation.
pub open spec fn region_fault(owner: Seq<char>, slot_off: usize, num_bin: u32, len: nat) -> Option<Fault> {
    if num_bin == 0 {
        Some(Fault::Runtime(owner + ": num_bin must be > 0"@))
    } else if 2 * num_bin > usize::MAX {
        Some(
            Fault::Runtime(
                "num_bin "@ + text::decimal(num_bin as nat) + " overflows the histogram length"@,
            ),
        )
    } else if slot_off + 2 * num_bin > usize::MAX {
        Some(Fault::Runtime(owner + ": slot_off + region overflows"@))
    } else if slot_off + 2 * num_bin > len {
        Some(Fault::LengthMismatch { expected: (slot_off + 2 * num_bin) as nat, actual: len })
    } else {
        None
    }
}

/// Check the region of `num_bin` bins at cell `slot_off`, in a histogram of `len` cells.
pub fn check_region(owner: &str, slot_off: usize, num_bin: u32, len: usize) -> (r: Result<(), ComputeError>)
    ensures
        error::fails_as(r, region_fault(owner@, slot_off, num_bin, len as nat)),
{
    if num_bin == 0 {
        let mut detail: String = owner.to_owned();
        detail.append(": num_bin must be > 0");
        return Err(ComputeError::Runtime { detail });
    }
    let cells: usize = match 2usize.checked_mul(num_bin as usize) {
        Some(cells) => cells,
        None => {
            let mut detail: String = "num_bin ".to_owned();
            text::push_decimal(&mut detail, num_bin as u64);
            detail.append(" overflows the histogram length");
            return Err(ComputeError::Runtime { detail });
        },
    };
    let end: usize = match slot_off.checked_add(cells) {
        Some(end) => end,
        None => {
            let mut detail: String = owner.to_owned();
            detail.append(": slot_off + region overflows");
            return Err(ComputeError::Runtime { detail });
        },
    };
    if end > len {
        return Err(ComputeError::LengthMismatch { expected: end, actual: len });
    }
    Ok(())
}

} // verus!
