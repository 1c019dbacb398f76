//! The fixed-point build of a leaf's histogram: signed sums that wrap at 64 bits, gathered by
//! groups of rows and merged.
use crate::bin_column::BinColumn;
use crate::kernels::fix_compact;
use crate::kernels::histogram;
use crate::kernels::leaf_histogram;
use vstd::arithmetic::div_mod;
use vstd::prelude::*;

verus! {

/// How many cells the sub-histogram of a feature may have.
pub const HIST_LDS_MAX: usize = 512;

/// How many rows a group takes in at a time.
pub const GROUP_ROWS: usize = 256;

/// The 64-bit two's complement of a number, without its higher bits.
pub open spec fn wrapped(v: int) -> u64 {
    (v % 0x1_0000_0000_0000_0000) as u64
}

/// The sum of two wrapped numbers wraps to their wrapped sum.
proof fn wrapped_sum(a: int, b: int)
    ensures
        (wrapped(a) + wrapped(b)) % 0x1_0000_0000_0000_0000 == wrapped(a + b),
{
    div_mod::lemma_add_mod_noop(a, b, 0x1_0000_0000_0000_0000);
}

/// The bits of a signed number.
pub fn bits_of(v: i64) -> (bits: u64)
    ensures
        bits == wrapped(v as int),
        fix_compact::spec_signed_bits(bits) == v,
{
    if v >= 0 {
        v as u64
    } else {
        u64::MAX - (-1 - v) as u64
    }
}

/// The sum of two cells, without a carry out of the last bit.
fn add_bits(a: u64, b: u64) -> (sum: u64)
    ensures
        sum == (a + b) % 0x1_0000_0000_0000_0000,
{
    a.wrapping_add(b)
}

/// The value that row `k` brings to cell `c`: its gradient or hessian if it has the cell's bin.
pub open spec fn brings(binned: Seq<u32>, grad: Seq<i64>, hess: Seq<i64>, c: int, k: int) -> int {
    if binned[k] == c / 2 {
        if c % 2 == 0 {
            grad[k] as int
        } else {
            hess[k] as int
        }
    } else {
        0
    }
}

/// What the first `n` rows bring to cell `c`.
pub open spec fn cell_sum(binned: Seq<u32>, grad: Seq<i64>, hess: Seq<i64>, c: int, n: int) -> int
    decreases n,
{
    if n <= 0 {
        0
    } else {
        cell_sum(binned, grad, hess, c, n - 1) + brings(binned, grad, hess, c, n - 1)
    }
}

/// The group, out of `groups`, that takes in row `k`.
pub open spec fn group_of(k: int, groups: int) -> int {
    (k / GROUP_ROWS as int) % groups
}

/// What those of the first `n` rows that group `y` takes in bring to cell `c`.
pub open spec fn group_sum(
    binned: Seq<u32>,
    grad: Seq<i64>,
    hess: Seq<i64>,
    c: int,
    n: int,
    y: int,
    groups: int,
) -> int
    decreases n,
{
    if n <= 0 {
        0
    } else {
        group_sum(binned, grad, hess, c, n - 1, y, groups) + (if group_of(n - 1, groups) == y {
            brings(binned, grad, hess, c, n - 1)
        } else {
            0
        })
    }
}

/// What the first `upto` groups bring to cell `c`.
pub open spec fn groups_sum(
    binned: Seq<u32>,
    grad: Seq<i64>,
    hess: Seq<i64>,
    c: int,
    n: int,
    upto: int,
    groups: int,
) -> int
    decreases upto,
{
    if upto <= 0 {
        0
    } else {
        groups_sum(binned, grad, hess, c, n, upto - 1, groups) + group_sum(
            binned,
            grad,
            hess,
            c,
            n,
            upto - 1,
            groups,
        )
    }
}

/// One more row adds to the groups' sum once its own group is among them.
proof fn groups_sum_extends(
    binned: Seq<u32>,
    grad: Seq<i64>,
    hess: Seq<i64>,
    c: int,
    n: int,
    upto: int,
    groups: int,
)
    requires
        0 <= n,
        0 <= upto,
        0 < groups,
    ensures
        groups_sum(binned, grad, hess, c, n + 1, upto, groups) == groups_sum(
            binned,
            grad,
            hess,
            c,
            n,
            upto,
            groups,
        ) + (if group_of(n, groups) < upto {
            brings(binned, grad, hess, c, n)
        } else {
            0
        }),
    decreases upto,
{
    let blk = n / GROUP_ROWS as int;
    assert(0 <= blk % groups) by (nonlinear_arith)
        requires
            0 < groups,
    ;
    if upto > 0 {
        groups_sum_extends(binned, grad, hess, c, n, upto - 1, groups);
    }
}

/// Together the groups take in every row once.
pub proof fn groups_cover_rows(
    binned: Seq<u32>,
    grad: Seq<i64>,
    hess: Seq<i64>,
    c: int,
    n: int,
    groups: int,
)
    requires
        0 <= n,
        0 < groups,
    ensures
        groups_sum(binned, grad, hess, c, n, groups, groups) == cell_sum(binned, grad, hess, c, n),
    decreases n,
{
    if n > 0 {
        groups_cover_rows(binned, grad, hess, c, n - 1, groups);
        groups_sum_extends(binned, grad, hess, c, n - 1, groups, groups);
        let blk = (n - 1) / GROUP_ROWS as int;
        assert(blk % groups < groups) by (nonlinear_arith)
            requires
                0 < groups,
        ;
    } else {
        no_rows(binned, grad, hess, c, groups, groups);
    }
}

proof fn no_rows(binned: Seq<u32>, grad: Seq<i64>, hess: Seq<i64>, c: int, upto: int, groups: int)
    ensures
        groups_sum(binned, grad, hess, c, 0, upto, groups) == 0,
    decreases upto,
{
    if upto > 0 {
        no_rows(binned, grad, hess, c, upto - 1, groups);
    }
}

/// Rows of other groups add nothing.
proof fn other_rows_add_nothing(
    binned: Seq<u32>,
    grad: Seq<i64>,
    hess: Seq<i64>,
    c: int,
    from: int,
    to: int,
    y: int,
    groups: int,
)
    requires
        0 <= from <= to,
        forall|k: int| from <= k < to ==> #[trigger] group_of(k, groups) != y,
    ensures
        group_sum(binned, grad, hess, c, to, y, groups) == group_sum(binned, grad, hess, c, from, y, groups),
    decreases to - from,
{
    if from < to {
        assert(group_of(to - 1, groups) != y);
        other_rows_add_nothing(binned, grad, hess, c, from, to - 1, y, groups);
    }
}

/// Between a block of a group and its next block lie only blocks of other groups.
proof fn next_block_is_groups_away(b: int, blk: int, groups: int)
    requires
        0 <= b,
        b < blk < b + groups,
    ensures
        blk % groups != b % groups,
{
    let q = b / groups;
    let y = b % groups;
    let d = blk - b;
    div_mod::lemma_fundamental_div_mod(b, groups);
    assert(0 <= y < groups) by (nonlinear_arith)
        requires
            0 < groups,
            y == b % groups,
    ;
    if y + d < groups {
        assert(blk == q * groups + (y + d)) by (nonlinear_arith)
            requires
                b == groups * q + y,
                blk == b + d,
        ;
        div_mod::lemma_fundamental_div_mod_converse(blk, groups, q, y + d);
    } else {
        assert(blk == (q + 1) * groups + (y + d - groups)) by (nonlinear_arith)
            requires
                b == groups * q + y,
                blk == b + d,
        ;
        div_mod::lemma_fundamental_div_mod_converse(blk, groups, q + 1, y + d - groups);
    }
}

/// Every row has a bin whose two cells are among the first `cells` cells.
pub open spec fn bins_fit(binned: Seq<u32>, cells: int) -> bool {
    forall|k: int| 0 <= k < binned.len() ==> 2 * #[trigger] binned[k] + 1 < cells
}

/// The sub-histogram of one group: the rows of every `groups`-th block, from block `y` on.
fn group_histogram(
    binned: &[u32],
    grad: &[i64],
    hess: &[i64],
    cells: usize,
    y: usize,
    groups: usize,
) -> (sub: Vec<u64>)
    requires
        y < groups,
        grad@.len() == binned@.len(),
        hess@.len() == binned@.len(),
        bins_fit(binned@, cells as int),
    ensures
        sub@.len() == cells,
        forall|c: int|
            0 <= c < cells ==> #[trigger] sub@[c] == wrapped(
                group_sum(binned@, grad@, hess@, c, binned@.len() as int, y as int, groups as int),
            ),
{
    let rows: usize = binned.len();
    let blocks: usize = if rows % GROUP_ROWS == 0 {
        rows / GROUP_ROWS
    } else {
        rows / GROUP_ROWS + 1
    };
    let mut sub: Vec<u64> = histogram::zeroed(cells, 0u64);
    let mut b: usize = y;
    let mut done: usize = if y < blocks {
        y * GROUP_ROWS
    } else {
        rows
    };
    proof {
        assert forall|c: int| 0 <= c < cells implies #[trigger] sub@[c] == wrapped(
            group_sum(binned@, grad@, hess@, c, done as int, y as int, groups as int),
        ) by {
            assert forall|k: int| 0 <= k < done implies #[trigger] group_of(k, groups as int) != y by {
                let blk = k / GROUP_ROWS as int;
                assert(blk % groups as int == blk) by (nonlinear_arith)
                    requires
                        0 <= blk < groups,
                ;
            }
            other_rows_add_nothing(binned@, grad@, hess@, c, 0, done as int, y as int, groups as int);
        }
        assert(y as int % groups as int == y) by (nonlinear_arith)
            requires
                0 <= y < groups,
        ;
    }
    while b < blocks
        invariant
            y < groups,
            rows == binned@.len(),
            grad@.len() == rows,
            hess@.len() == rows,
            blocks == (if rows % GROUP_ROWS == 0 {
                (rows / GROUP_ROWS) as int
            } else {
                rows / GROUP_ROWS + 1
            }),
            bins_fit(binned@, cells as int),
            b < blocks ==> b as int % groups as int == y && done == b * GROUP_ROWS,
            b >= blocks ==> done == rows,
            sub@.len() == cells,
            forall|c: int|
                0 <= c < cells ==> #[trigger] sub@[c] == wrapped(
                    group_sum(binned@, grad@, hess@, c, done as int, y as int, groups as int),
                ),
        decreases blocks - b,
    {
        let end: usize = if rows - done > GROUP_ROWS {
            done + GROUP_ROWS
        } else {
            rows
        };
        let mut k: usize = done;
        while k < end
            invariant
                done <= k <= end,
                end <= rows,
                end <= done + GROUP_ROWS,
                done == b * GROUP_ROWS,
                y < groups,
                b as int % groups as int == y,
                rows == binned@.len(),
                grad@.len() == rows,
                hess@.len() == rows,
                bins_fit(binned@, cells as int),
                sub@.len() == cells,
                forall|c: int|
                    0 <= c < cells ==> #[trigger] sub@[c] == wrapped(
                        group_sum(binned@, grad@, hess@, c, k as int, y as int, groups as int),
                    ),
            decreases end - k,
        {
            let ghost held = sub@;
            assert(2 * binned@[k as int] + 1 < cells);
            let ti: usize = 2 * binned[k] as usize;
            let qg: u64 = bits_of(grad[k]);
            let qh: u64 = bits_of(hess[k]);
            let g: u64 = add_bits(sub[ti], qg);
            sub.set(ti, g);
            let h: u64 = add_bits(sub[ti + 1], qh);
            sub.set(ti + 1, h);
            proof {
                assert(k as int / GROUP_ROWS as int == b);
                assert(group_of(k as int, groups as int) == y);
                assert forall|c: int| 0 <= c < cells implies #[trigger] sub@[c] == wrapped(
                    group_sum(binned@, grad@, hess@, c, k + 1, y as int, groups as int),
                ) by {
                    let before = group_sum(binned@, grad@, hess@, c, k as int, y as int, groups as int);
                    assert(held[c] == wrapped(before));
                    if c == ti {
                        wrapped_sum(before, grad@[k as int] as int);
                    } else if c == ti + 1 {
                        wrapped_sum(before, hess@[k as int] as int);
                    }
                }
            }
            k += 1;
        }
        let ghost this = b as int;
        let next: usize = if blocks - b <= groups {
            blocks
        } else {
            b + groups
        };
        let reached: usize = if next < blocks {
            next * GROUP_ROWS
        } else {
            rows
        };
        proof {
            assert forall|c: int| 0 <= c < cells implies #[trigger] sub@[c] == wrapped(
                group_sum(binned@, grad@, hess@, c, reached as int, y as int, groups as int),
            ) by {
                assert forall|r: int| end <= r < reached implies #[trigger] group_of(r, groups as int) != y by {
                    let blk = r / GROUP_ROWS as int;
                    next_block_is_groups_away(this, blk, groups as int);
                }
                other_rows_add_nothing(
                    binned@,
                    grad@,
                    hess@,
                    c,
                    end as int,
                    reached as int,
                    y as int,
                    groups as int,
                );
            }
            if next < blocks {
                div_mod::lemma_add_mod_noop(this, groups as int, groups as int);
                assert((this + groups) % groups as int == y) by (nonlinear_arith)
                    requires
                        this % groups as int == y,
                        0 < groups,
                ;
            }
        }
        b = next;
        done = reached;
    }
    sub
}

/// The bins of the given rows in feature `f`, whose column starts at `f * num_data`.
pub open spec fn column_bins(bins: Seq<u32>, num_data: int, f: int, rows: Seq<u32>) -> Seq<u32> {
    Seq::new(rows.len(), |k: int| bins[f * num_data + rows[k]])
}

/// `after` is `before` with the rows' values added, wrapping, to the cells of their bins in every
/// feature; feature `f` has the cells from `slot_off[f]` up to `slot_off[f + 1]`.
pub open spec fn is_fixed_build(
    bins: Seq<u32>,
    num_data: int,
    rows: Seq<u32>,
    grad: Seq<i64>,
    hess: Seq<i64>,
    slot_off: Seq<u32>,
    features: int,
    before: Seq<u64>,
    after: Seq<u64>,
) -> bool {
    &&& after.len() == before.len()
    &&& forall|f: int, c: int|
        0 <= f < features && #[trigger] slot_off[f] <= c < slot_off[f + 1] ==> #[trigger] after[c] == wrapped(
            before[c] + cell_sum(
                column_bins(bins, num_data, f, rows),
                grad,
                hess,
                c - slot_off[f],
                rows.len() as int,
            ),
        )
    &&& forall|c: int|
        0 <= c < before.len() && (c < slot_off[0] || c >= slot_off[features]) ==> #[trigger] after[c] == before[c]
}

/// The first cells of the features are in order, and the last one ends within `cells` cells.
pub open spec fn slots_in_order(slot_off: Seq<u32>, cells: int) -> bool {
    &&& slot_off.len() >= 1
    &&& forall|i: int, j: int| 0 <= i <= j < slot_off.len() ==> #[trigger] slot_off[i] <= #[trigger] slot_off[j]
    &&& slot_off.last() <= cells
}

/// The inputs of a build: one column per feature, rows within the columns, and bins within the
/// features' cells.
pub open spec fn build_inputs_fit(
    bins: Seq<u32>,
    num_data: int,
    rows: Seq<u32>,
    slot_off: Seq<u32>,
    cells: int,
) -> bool {
    &&& slots_in_order(slot_off, cells)
    &&& bins.len() == (slot_off.len() - 1) * num_data
    &&& forall|k: int| 0 <= k < rows.len() ==> #[trigger] rows[k] < num_data
    &&& forall|f: int|
        0 <= f < slot_off.len() - 1 ==> bins_fit(
            #[trigger] column_bins(bins, num_data, f, rows),
            slot_off[f + 1] - slot_off[f],
        )
}

/// The number of groups that share the rows, and their order, do not change a single cell: what
/// was there and the rows fix every cell that a feature covers.
pub proof fn fixed_build_is_unique(
    bins: Seq<u32>,
    num_data: int,
    rows: Seq<u32>,
    grad: Seq<i64>,
    hess: Seq<i64>,
    slot_off: Seq<u32>,
    before: Seq<u64>,
    a: Seq<u64>,
    b: Seq<u64>,
)
    requires
        slots_in_order(slot_off, before.len() as int),
        is_fixed_build(bins, num_data, rows, grad, hess, slot_off, slot_off.len() - 1, before, a),
        is_fixed_build(bins, num_data, rows, grad, hess, slot_off, slot_off.len() - 1, before, b),
    ensures
        a == b,
{
    let last = slot_off.len() - 1;
    assert forall|c: int| 0 <= c < a.len() implies a[c] == b[c] by {
        if slot_off[0] <= c < slot_off[last] {
            let f = feature_of_cell(slot_off, c, last);
            assert(slot_off[f] <= c < slot_off[f + 1]);
        }
    }
    assert(a =~= b);
}

/// The feature that covers a cell.
proof fn feature_of_cell(slot_off: Seq<u32>, c: int, upto: int) -> (f: int)
    requires
        0 <= upto < slot_off.len(),
        slot_off[0] <= c < slot_off[upto],
    ensures
        0 <= f < upto,
        slot_off[f] <= c < slot_off[f + 1],
    decreases upto,
{
    if slot_off[upto - 1] <= c {
        upto - 1
    } else {
        feature_of_cell(slot_off, c, upto - 1)
    }
}

/// A sum of `n` values of at most `bound` is at most `n * bound`, in both directions.
proof fn cell_sum_bounded(binned: Seq<u32>, grad: Seq<i64>, hess: Seq<i64>, c: int, n: int, bound: int)
    requires
        0 <= n <= binned.len(),
        grad.len() == binned.len(),
        hess.len() == binned.len(),
        0 <= bound,
        forall|k: int|
            0 <= k < binned.len() ==> -bound <= #[trigger] grad[k] <= bound && -bound <= hess[k] <= bound,
    ensures
        -(n * bound) <= cell_sum(binned, grad, hess, c, n) <= n * bound,
    decreases n,
{
    if n > 0 {
        cell_sum_bounded(binned, grad, hess, c, n - 1, bound);
        assert(-bound <= grad[n - 1] <= bound);
        assert(n * bound == (n - 1) * bound + bound) by (nonlinear_arith);
    }
}

/// Where the number of rows times the largest magnitude stays within a signed 64-bit number, no
/// sum wraps: a cell that started at zero, read as a signed number, is the exact sum.
pub proof fn guarded_sum_is_exact(
    binned: Seq<u32>,
    grad: Seq<i64>,
    hess: Seq<i64>,
    c: int,
    bound: int,
)
    requires
        grad.len() == binned.len(),
        hess.len() == binned.len(),
        0 <= bound,
        binned.len() * bound <= i64::MAX,
        forall|k: int|
            0 <= k < binned.len() ==> -bound <= #[trigger] grad[k] <= bound && -bound <= hess[k] <= bound,
    ensures
        fix_compact::spec_signed_bits(wrapped(cell_sum(binned, grad, hess, c, binned.len() as int)))
            == cell_sum(binned, grad, hess, c, binned.len() as int),
{
    cell_sum_bounded(binned, grad, hess, c, binned.len() as int, bound);
}

/// Bin, gradient and hessian of each row.
pub open spec fn row_entries(binned: Seq<u32>, grad: Seq<i64>, hess: Seq<i64>) -> Seq<(u32, i64, i64)> {
    Seq::new(binned.len(), |k: int| (binned[k], grad[k], hess[k]))
}

/// A running sum with what a row brings to cell `c`.
spec fn taken_in(c: int) -> spec_fn(int, (u32, i64, i64)) -> int {
    |sum: int, e: (u32, i64, i64)|
        sum + (if e.0 == c / 2 {
            if c % 2 == 0 {
                e.1 as int
            } else {
                e.2 as int
            }
        } else {
            0
        })
}

proof fn cell_sum_is_fold(binned: Seq<u32>, grad: Seq<i64>, hess: Seq<i64>, c: int, n: int)
    requires
        0 <= n <= binned.len(),
    ensures
        cell_sum(binned, grad, hess, c, n) == row_entries(binned, grad, hess).take(n).fold_left(0int, taken_in(c)),
    decreases n,
{
    let entries = row_entries(binned, grad, hess);
    if n > 0 {
        cell_sum_is_fold(binned, grad, hess, c, n - 1);
        assert(entries.take(n).drop_last() =~= entries.take(n - 1));
    }
}

/// The order of the rows does not change a cell's sum.
pub proof fn row_order_is_neutral(
    binned: Seq<u32>,
    grad: Seq<i64>,
    hess: Seq<i64>,
    binned2: Seq<u32>,
    grad2: Seq<i64>,
    hess2: Seq<i64>,
    c: int,
)
    requires
        row_entries(binned, grad, hess).to_multiset() == row_entries(binned2, grad2, hess2).to_multiset(),
    ensures
        cell_sum(binned, grad, hess, c, binned.len() as int) == cell_sum(
            binned2,
            grad2,
            hess2,
            c,
            binned2.len() as int,
        ),
{
    let a = row_entries(binned, grad, hess);
    let b = row_entries(binned2, grad2, hess2);
    cell_sum_is_fold(binned, grad, hess, c, binned.len() as int);
    cell_sum_is_fold(binned2, grad2, hess2, c, binned2.len() as int);
    assert(a.take(binned.len() as int) =~= a);
    assert(b.take(binned2.len() as int) =~= b);
    vstd::seq_lib::lemma_fold_left_permutation(a, b, taken_in(c), 0int);
}

/// Build the histogram of a leaf's rows in fixed point, with `groups` groups of rows per feature.
/// With `resident_gh` the values are those of all rows, and each row reads its own; without it
/// they are those of the leaf's rows, in their order.
#[verifier::rlimit(40)]
pub fn construct_leaf_hist_resident_lds_kernel_u64(
    bins: &BinColumn,
    num_data: usize,
    leaf_rows: &[u32],
    ord_g: &[i64],
    ord_h: &[i64],
    slot_off: &[u32],
    groups: u32,
    resident_gh: bool,
    out: &mut Vec<u64>,
)
    requires
        groups >= 1,
        build_inputs_fit(bins@, num_data as int, leaf_rows@, slot_off@, old(out)@.len() as int),
        forall|f: int|
            0 <= f < slot_off@.len() - 1 ==> (#[trigger] slot_off@[f + 1]) - slot_off@[f] <= HIST_LDS_MAX,
        !resident_gh ==> ord_g@.len() == leaf_rows@.len() && ord_h@.len() == leaf_rows@.len(),
        resident_gh ==> forall|k: int|
            0 <= k < leaf_rows@.len() ==> #[trigger] leaf_rows@[k] < ord_g@.len() && leaf_rows@[k] < ord_h@.len(),
    ensures
        is_fixed_build(
            bins@,
            num_data as int,
            leaf_rows@,
            if resident_gh {
                leaf_histogram::picked(ord_g@, leaf_rows@)
            } else {
                ord_g@
            },
            if resident_gh {
                leaf_histogram::picked(ord_h@, leaf_rows@)
            } else {
                ord_h@
            },
            slot_off@,
            slot_off@.len() - 1,
            old(out)@,
            final(out)@,
        ),
{
    if resident_gh {
        let g: Vec<i64> = leaf_histogram::gather(ord_g, leaf_rows);
        let h: Vec<i64> = leaf_histogram::gather(ord_h, leaf_rows);
        build_features(bins, num_data, leaf_rows, g.as_slice(), h.as_slice(), slot_off, groups as usize, out);
    } else {
        build_features(bins, num_data, leaf_rows, ord_g, ord_h, slot_off, groups as usize, out);
    }
}

/// Build every feature's cells over the leaf's rows.
fn build_features(
    bins: &BinColumn,
    num_data: usize,
    leaf_rows: &[u32],
    grad: &[i64],
    hess: &[i64],
    slot_off: &[u32],
    groups: usize,
    out: &mut Vec<u64>,
)
    requires
        groups >= 1,
        build_inputs_fit(bins@, num_data as int, leaf_rows@, slot_off@, old(out)@.len() as int),
        grad@.len() == leaf_rows@.len(),
        hess@.len() == leaf_rows@.len(),
    ensures
        is_fixed_build(
            bins@,
            num_data as int,
            leaf_rows@,
            grad@,
            hess@,
            slot_off@,
            slot_off@.len() - 1,
            old(out)@,
            final(out)@,
        ),
{
    let ghost before = out@;
    let cells: usize = out.len();
    let num_features: usize = slot_off.len() - 1;
    let mut f: usize = 0;
    while f < num_features
        invariant
            f <= num_features,
            num_features == slot_off@.len() - 1,
            groups >= 1,
            cells == before.len(),
            build_inputs_fit(bins@, num_data as int, leaf_rows@, slot_off@, cells as int),
            grad@.len() == leaf_rows@.len(),
            hess@.len() == leaf_rows@.len(),
            is_fixed_build(
                bins@,
                num_data as int,
                leaf_rows@,
                grad@,
                hess@,
                slot_off@,
                f as int,
                before,
                out@,
            ),
        decreases num_features - f,
    {
        let ghost held = out@;
        let base: usize = slot_off[f] as usize;
        let end: usize = slot_off[f + 1] as usize;
        proof {
            assert(slot_off@[f as int] <= slot_off@[f + 1]);
            assert(slot_off@[f + 1] <= slot_off@[slot_off@.len() - 1]);
        }
        let binned: Vec<u32> = feature_bins(bins, num_data, f, num_features, leaf_rows);
        assert(bins_fit(column_bins(bins@, num_data as int, f as int, leaf_rows@), end - base));
        build_feature(binned.as_slice(), grad, hess, base, end, groups, out);
        proof {
            assert forall|e: int, c: int|
                0 <= e < f + 1 && #[trigger] slot_off@[e] <= c < slot_off@[e + 1] implies #[trigger] out@[c]
                == wrapped(
                before[c] + cell_sum(
                    column_bins(bins@, num_data as int, e, leaf_rows@),
                    grad@,
                    hess@,
                    c - slot_off@[e],
                    leaf_rows@.len() as int,
                ),
            ) by {
                if e < f {
                    assert(slot_off@[e + 1] <= slot_off@[f as int]);
                    assert(out@[c] == held[c]);
                } else {
                    assert(held[c] == before[c]);
                }
            }
            assert forall|c: int|
                0 <= c < before.len() && (c < slot_off@[0] || c >= slot_off@[f + 1]) implies #[trigger] out@[c]
                == before[c] by {
                assert(slot_off@[0] <= slot_off@[f as int]);
                assert(out@[c] == held[c]);
            }
        }
        f += 1;
    }
}

/// The bins of the leaf's rows in feature `f`.
pub fn feature_bins(
    bins: &BinColumn,
    num_data: usize,
    f: usize,
    num_features: usize,
    leaf_rows: &[u32],
) -> (binned: Vec<u32>)
    requires
        f < num_features,
        bins@.len() == num_features * num_data,
        forall|k: int| 0 <= k < leaf_rows@.len() ==> #[trigger] leaf_rows@[k] < num_data,
    ensures
        binned@ == column_bins(bins@, num_data as int, f as int, leaf_rows@),
{
    let n: usize = bins.len();
    let mut binned: Vec<u32> = Vec::with_capacity(leaf_rows.len());
    assert((f + 1) * num_data <= n) by (nonlinear_arith)
        requires
            n == num_features * num_data,
            f + 1 <= num_features,
            0 <= num_data,
    ;
    assert((f + 1) * num_data == f * num_data + num_data) by (nonlinear_arith);
    let col: usize = f * num_data;
    let mut k: usize = 0;
    while k < leaf_rows.len()
        invariant
            k <= leaf_rows@.len(),
            n == bins@.len(),
            col == f * num_data,
            col + num_data <= n,
            forall|j: int| 0 <= j < leaf_rows@.len() ==> #[trigger] leaf_rows@[j] < num_data,
            binned@ == column_bins(bins@, num_data as int, f as int, leaf_rows@).take(k as int),
        decreases leaf_rows@.len() - k,
    {
        binned.push(bins.bin(col + leaf_rows[k] as usize));
        k += 1;
        assert(binned@ =~= column_bins(bins@, num_data as int, f as int, leaf_rows@).take(k as int));
    }
    assert(binned@ =~= column_bins(bins@, num_data as int, f as int, leaf_rows@));
    binned
}

/// Build one feature's cells: the sub-histogram of each group, merged into the cells.
fn build_feature(
    binned: &[u32],
    grad: &[i64],
    hess: &[i64],
    base: usize,
    end: usize,
    groups: usize,
    out: &mut Vec<u64>,
)
    requires
        groups >= 1,
        base <= end <= old(out)@.len(),
        grad@.len() == binned@.len(),
        hess@.len() == binned@.len(),
        bins_fit(binned@, end - base),
    ensures
        final(out)@.len() == old(out)@.len(),
        forall|c: int|
            base <= c < end ==> #[trigger] final(out)@[c] == wrapped(
                old(out)@[c] + cell_sum(binned@, grad@, hess@, c - base, binned@.len() as int),
            ),
        forall|c: int|
            0 <= c < old(out)@.len() && (c < base || c >= end) ==> #[trigger] final(out)@[c] == old(out)@[c],
{
    let ghost before = out@;
    let ghost rows = binned@.len() as int;
    let cells: usize = end - base;
    let total: usize = out.len();
    let mut y: usize = 0;
    assert forall|c: int| base <= c < end implies #[trigger] out@[c] == wrapped(before[c] as int) by {}
    while y < groups
        invariant
            y <= groups,
            groups >= 1,
            base <= end <= total,
            cells == end - base,
            out@.len() == total,
            before.len() == total,
            rows == binned@.len(),
            grad@.len() == binned@.len(),
            hess@.len() == binned@.len(),
            bins_fit(binned@, cells as int),
            forall|c: int|
                base <= c < end ==> #[trigger] out@[c] == wrapped(
                    before[c] + groups_sum(binned@, grad@, hess@, c - base, rows, y as int, groups as int),
                ),
            forall|c: int|
                0 <= c < total && (c < base || c >= end) ==> #[trigger] out@[c] == before[c],
        decreases groups - y,
    {
        let sub: Vec<u64> = group_histogram(binned, grad, hess, cells, y, groups);
        let ghost held = out@;
        let mut m: usize = 0;
        while m < cells
            invariant
                m <= cells,
                cells == end - base,
                end <= total,
                out@.len() == total,
                held.len() == total,
                sub@.len() == cells,
                forall|c: int|
                    base <= c < base + m ==> #[trigger] out@[c] == (held[c] + sub@[c - base])
                        % 0x1_0000_0000_0000_0000,
                forall|c: int|
                    0 <= c < total && (c < base || c >= base + m) ==> #[trigger] out@[c] == held[c],
            decreases cells - m,
        {
            let merged: u64 = add_bits(out[base + m], sub[m]);
            out.set(base + m, merged);
            m += 1;
        }
        proof {
            assert forall|c: int| base <= c < end implies #[trigger] out@[c] == wrapped(
                before[c] + groups_sum(binned@, grad@, hess@, c - base, rows, y + 1, groups as int),
            ) by {
                let so_far = before[c] + groups_sum(
                    binned@,
                    grad@,
                    hess@,
                    c - base,
                    rows,
                    y as int,
                    groups as int,
                );
                let share = group_sum(binned@, grad@, hess@, c - base, rows, y as int, groups as int);
                assert(held[c] == wrapped(so_far));
                assert(sub@[c - base] == wrapped(share));
                wrapped_sum(so_far, share);
            }
        }
        y += 1;
    }
    proof {
        assert forall|c: int| base <= c < end implies #[trigger] out@[c] == wrapped(
            before[c] + cell_sum(binned@, grad@, hess@, c - base, rows),
        ) by {
            groups_cover_rows(binned@, grad@, hess@, c - base, rows, groups as int);
        }
    }
}

} // verus!
