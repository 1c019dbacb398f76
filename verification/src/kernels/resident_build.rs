//! The build of a leaf's histogram from the columns that stay on the device.
use crate::bin_column::BinColumn;
use crate::error;
use crate::error::{ComputeError, Fault};
use crate::fold;
use crate::kernels::fix_compact;
use crate::kernels::fixed_build;
use crate::kernels::grouped_build;
use crate::kernels::histogram;
use crate::kernels::leaf_histogram;
use crate::kernels::row_partition;
use crate::kernels::row_partition::GroupChoice;
use crate::number::{Real64, INFINITE_MAGNITUDE};
use crate::text;
use vstd::prelude::*;

verus! {

/// The histograms of the two children of a split.
#[derive(Debug, Clone)]
pub struct ConstructedLeafHists<C> {
    /// The smaller child's repaired histogram.
    pub smaller: Vec<C>,
    /// The larger child's histogram, `None` where there is no larger child.
    pub larger: Option<Vec<C>>,
}

/// What decides whether the histograms of two children are built.
#[derive(Debug, Clone, Copy, PartialEq, Eq, Structural)]
pub struct LeafConstructGate {
    /// The rows of the smaller child.
    pub smaller_count: i32,
    /// The hessian sum of the smaller child.
    pub smaller_sum_hessian: Real64,
    /// The rows of the larger child.
    pub larger_count: i32,
    /// The hessian sum of the larger child.
    pub larger_sum_hessian: Real64,
    /// The leaf of the larger child, negative where there is none.
    pub larger_leaf_index: i32,
    pub min_data_in_leaf: i32,
    pub min_sum_hessian_in_leaf: Real64,
}

/// The text of the fault of a spill buffer with too many cells.
pub open spec fn spill_text(grid_dim_y: usize, num_total_bin: usize) -> Seq<char> {
    "spill buffer size grid_dim_y "@ + text::decimal(grid_dim_y as nat) + " · num_total_bin "@ + text::decimal(
        num_total_bin as nat,
    ) + " · 2 overflows usize"@
}

/// The fault of a spill buffer: too many cells, or none.
pub open spec fn spill_fault(grid_dim_y: usize, num_total_bin: usize) -> Option<Fault> {
    if grid_dim_y * num_total_bin * 2 > usize::MAX {
        Some(Fault::Runtime(spill_text(grid_dim_y, num_total_bin)))
    } else if grid_dim_y == 0 || num_total_bin == 0 {
        Some(Fault::Runtime("spill buffer size is zero (empty layout)"@))
    } else {
        None
    }
}

/// How many cells the spill buffer of a build has: two per bin and row of the grid.
pub fn spill_cells(grid_dim_y: usize, num_total_bin: usize) -> (r: Result<usize, ComputeError>)
    ensures
        error::fails_as(r, spill_fault(grid_dim_y, num_total_bin)),
        r matches Ok(cells) ==> cells == grid_dim_y * num_total_bin * 2,
{
    assert(grid_dim_y * num_total_bin >= 0) by (nonlinear_arith)
        requires
            grid_dim_y >= 0,
            num_total_bin >= 0,
    ;
    assert((grid_dim_y * num_total_bin == 0) == (grid_dim_y == 0 || num_total_bin == 0)) by (nonlinear_arith);
    let cells: Option<usize> = match grid_dim_y.checked_mul(num_total_bin) {
        Some(bins) => bins.checked_mul(2),
        None => None,
    };
    match cells {
        None => {
            let mut detail: String = "spill buffer size grid_dim_y ".to_owned();
            text::push_decimal(&mut detail, grid_dim_y as u64);
            detail.append(" · num_total_bin ");
            text::push_decimal(&mut detail, num_total_bin as u64);
            detail.append(" · 2 overflows usize");
            Err(ComputeError::Runtime { detail })
        },
        Some(cells) => {
            if cells == 0 {
                return Err(error::runtime_error("spill buffer size is zero (empty layout)"));
            }
            Ok(cells)
        },
    }
}

/// The columns one behind the other.
pub open spec fn concatenated(columns: Seq<Seq<u32>>, n: int) -> Seq<u32>
    decreases n,
{
    if n <= 0 {
        Seq::empty()
    } else {
        concatenated(columns, n - 1) + columns[n - 1]
    }
}

/// What the columns hold.
pub open spec fn column_views(columns: Seq<&[u32]>) -> Seq<Seq<u32>> {
    Seq::new(columns.len(), |i: int| columns[i]@)
}

/// Columns of equal length lie at multiples of that length: row `row` of column `f` stands at
/// `f * num_data + row`.
pub proof fn columns_lie_feature_major(columns: Seq<Seq<u32>>, num_data: int, n: int, f: int, row: int)
    requires
        0 <= f < n <= columns.len(),
        0 <= row < num_data,
        forall|i: int| 0 <= i < columns.len() ==> (#[trigger] columns[i]).len() == num_data,
    ensures
        concatenated(columns, n).len() == n * num_data,
        f * num_data + row < n * num_data,
        concatenated(columns, n)[f * num_data + row] == columns[f][row],
    decreases n,
{
    concatenated_len(columns, num_data, n);
    concatenated_len(columns, num_data, n - 1);
    assert(f * num_data + row < (f + 1) * num_data) by (nonlinear_arith)
        requires
            row < num_data,
    ;
    assert((f + 1) * num_data <= n * num_data) by (nonlinear_arith)
        requires
            f + 1 <= n,
            0 <= num_data,
    ;
    assert(0 <= f * num_data) by (nonlinear_arith)
        requires
            0 <= f,
            0 <= num_data,
    ;
    if f < n - 1 {
        columns_lie_feature_major(columns, num_data, n - 1, f, row);
    } else {
        assert(f * num_data == (n - 1) * num_data);
    }
}

proof fn concatenated_len(columns: Seq<Seq<u32>>, num_data: int, n: int)
    requires
        0 <= n <= columns.len(),
        forall|i: int| 0 <= i < columns.len() ==> (#[trigger] columns[i]).len() == num_data,
    ensures
        concatenated(columns, n).len() == n * num_data,
    decreases n,
{
    if n > 0 {
        concatenated_len(columns, num_data, n - 1);
        assert(columns[n - 1].len() == num_data);
        assert(n * num_data == (n - 1) * num_data + num_data) by (nonlinear_arith);
    } else {
        assert(n * num_data == 0) by (nonlinear_arith)
            requires
                n == 0,
        ;
    }
}

/// The columns of the features one behind the other, as they stay on the device.
pub fn upload_resident_columns(feature_bins: &[&[u32]]) -> (concat: Vec<u32>)
    ensures
        concat@ == concatenated(column_views(feature_bins@), feature_bins@.len() as int),
{
    let mut concat: Vec<u32> = Vec::new();
    let ghost columns = column_views(feature_bins@);
    let mut f: usize = 0;
    while f < feature_bins.len()
        invariant
            f <= feature_bins@.len(),
            columns == column_views(feature_bins@),
            concat@ == concatenated(columns, f as int),
        decreases feature_bins@.len() - f,
    {
        let column: &[u32] = feature_bins[f];
        let ghost before = concat@;
        let mut i: usize = 0;
        while i < column.len()
            invariant
                i <= column@.len(),
                concat@ == before + column@.take(i as int),
            decreases column@.len() - i,
        {
            concat.push(column[i]);
            i += 1;
            assert(concat@ =~= before + column@.take(i as int));
        }
        assert(column@.take(i as int) =~= column@);
        f += 1;
    }
    concat
}

/// The inputs of a build over all features: the columns, the rows, and the features' cells.
pub open spec fn resident_inputs_fit(
    bins: Seq<u32>,
    num_data: int,
    slot_off: Seq<usize>,
    slot_len: usize,
    rows: Seq<u32>,
) -> bool {
    let bounds = row_partition::with_sentinel(slot_off, slot_len);
    &&& slot_len <= u32::MAX
    &&& forall|i: int, j: int| 0 <= i <= j < slot_off.len() ==> #[trigger] slot_off[i] <= #[trigger] slot_off[j]
    &&& slot_off.len() > 0 ==> slot_off.last() <= slot_len
    &&& fixed_build::build_inputs_fit(bins, num_data, rows, bounds, slot_len as int)
    &&& row_partition::widest(bounds, slot_off.len() as int) <= fixed_build::HIST_LDS_MAX
}

/// Build the fixed-point histogram of the leaf's rows on top of `out`, with any number of row
/// groups. The values are those of all rows; with `resident_gh` the build itself picks those of
/// the leaf, else they are picked beforehand.
pub fn resident_raw_build_into(
    bins: &BinColumn,
    num_data: usize,
    slot_off: &[usize],
    slot_len: usize,
    leaf_rows: &[u32],
    gradients: &[i64],
    hessians: &[i64],
    choice: &GroupChoice<'_>,
    resident_gh: bool,
    out: &mut Vec<u64>,
)
    requires
        choice.wf(),
        slot_off@.len() <= u32::MAX,
        slot_len == old(out)@.len(),
        leaf_rows@.len() > 0 && slot_off@.len() > 0 ==> resident_inputs_fit(
            bins@,
            num_data as int,
            slot_off@,
            slot_len,
            leaf_rows@,
        ),
        forall|k: int|
            0 <= k < leaf_rows@.len() ==> #[trigger] leaf_rows@[k] < gradients@.len() && leaf_rows@[k]
                < hessians@.len(),
    ensures
        fixed_build::is_fixed_build(
            bins@,
            num_data as int,
            leaf_rows@,
            leaf_histogram::picked(gradients@, leaf_rows@),
            leaf_histogram::picked(hessians@, leaf_rows@),
            row_partition::with_sentinel(slot_off@, slot_len),
            slot_off@.len() as int,
            old(out)@,
            final(out)@,
        ),
{
    if leaf_rows.len() == 0 || slot_off.len() == 0 {
        proof {
            assert forall|c: int| 0 <= c < out@.len() implies #[trigger] out@[c] == fixed_build::wrapped(
                out@[c] as int,
            ) by {}
        }
        return;
    }
    let (bounds, max_w) = row_partition::slot_off_sentinel(slot_off, slot_len);
    proof {
        row_partition::widest_bounds_regions(bounds@, slot_off@.len() as int);
    }
    let groups: u32 = match row_partition::planned_groups(
        choice,
        leaf_rows.len(),
        slot_off.len(),
        max_w,
        true,
        resident_gh,
    ) {
        Some(groups) => groups,
        None => 1,
    };
    if resident_gh {
        fixed_build::construct_leaf_hist_resident_lds_kernel_u64(
            bins,
            num_data,
            leaf_rows,
            gradients,
            hessians,
            bounds.as_slice(),
            groups,
            true,
            out,
        );
    } else {
        let ord_g: Vec<i64> = leaf_histogram::gather(gradients, leaf_rows);
        let ord_h: Vec<i64> = leaf_histogram::gather(hessians, leaf_rows);
        fixed_build::construct_leaf_hist_resident_lds_kernel_u64(
            bins,
            num_data,
            leaf_rows,
            ord_g.as_slice(),
            ord_h.as_slice(),
            bounds.as_slice(),
            groups,
            false,
            out,
        );
    }
}

/// Build the cells of a leaf's features with an addition that the caller supplies: in groups of
/// rows, or row by row where a feature is too wide for a sub-histogram.
pub fn resident_float_build_into<C: Copy, V: Copy, A: Fn(C, V) -> C, M: Fn(C, C) -> C>(
    add_to: &A,
    merge: &M,
    zero: C,
    bins: &BinColumn,
    num_data: usize,
    slot_off: &[usize],
    slot_len: usize,
    leaf_rows: &[u32],
    gradients: &[V],
    hessians: &[V],
    choice: &GroupChoice<'_>,
    out: &mut Vec<C>,
)
    requires
        choice.wf(),
        fold::is_total(*add_to),
        fold::is_total(*merge),
        slot_off@.len() <= u32::MAX,
        slot_len == old(out)@.len(),
        leaf_rows@.len() > 0 && slot_off@.len() > 0 ==> {
            &&& slot_len <= u32::MAX
            &&& forall|i: int, j: int|
                0 <= i <= j < slot_off@.len() ==> #[trigger] slot_off@[i] <= #[trigger] slot_off@[j]
            &&& slot_off@.last() <= slot_len
            &&& grouped_build::paired_inputs_fit(
                bins@,
                num_data as int,
                leaf_rows@,
                row_partition::with_sentinel(slot_off@, slot_len),
                slot_len as int,
            )
        },
        forall|k: int|
            0 <= k < leaf_rows@.len() ==> #[trigger] leaf_rows@[k] < gradients@.len() && leaf_rows@[k]
                < hessians@.len(),
    ensures
        ({
            let bounds = row_partition::with_sentinel(slot_off@, slot_len);
            let n = slot_off@.len() as int;
            if leaf_rows@.len() == 0 || n == 0 {
                final(out)@ == old(out)@
            } else if row_partition::widest(bounds, n) > fixed_build::HIST_LDS_MAX {
                grouped_build::is_row_build(
                    *add_to,
                    bins@,
                    num_data as int,
                    leaf_rows@,
                    leaf_histogram::picked(gradients@, leaf_rows@),
                    leaf_histogram::picked(hessians@, leaf_rows@),
                    bounds,
                    n,
                    old(out)@,
                    final(out)@,
                )
            } else {
                grouped_build::is_grouped_build(
                    *add_to,
                    *merge,
                    zero,
                    bins@,
                    num_data as int,
                    leaf_rows@,
                    leaf_histogram::picked(gradients@, leaf_rows@),
                    leaf_histogram::picked(hessians@, leaf_rows@),
                    bounds,
                    n,
                    choice.groups(leaf_rows@.len() as int, n, false),
                    old(out)@,
                    final(out)@,
                )
            }
        }),
{
    if leaf_rows.len() == 0 || slot_off.len() == 0 {
        return;
    }
    let (bounds, max_w) = row_partition::slot_off_sentinel(slot_off, slot_len);
    proof {
        row_partition::widest_bounds_regions(bounds@, slot_off@.len() as int);
    }
    let ord_g: Vec<V> = leaf_histogram::gather(gradients, leaf_rows);
    let ord_h: Vec<V> = leaf_histogram::gather(hessians, leaf_rows);
    match row_partition::planned_groups(choice, leaf_rows.len(), slot_off.len(), max_w, false, false) {
        Some(groups) => grouped_build::construct_leaf_hist_resident_lds_kernel(
            add_to,
            merge,
            zero,
            bins,
            num_data,
            leaf_rows,
            ord_g.as_slice(),
            ord_h.as_slice(),
            bounds.as_slice(),
            groups,
            out,
        ),
        None => grouped_build::construct_leaf_hist_resident_kernel(
            add_to,
            bins,
            num_data,
            leaf_rows,
            ord_g.as_slice(),
            ord_h.as_slice(),
            bounds.as_slice(),
            out,
        ),
    }
}

/// No value that is a number has a larger magnitude than `m`.
pub open spec fn bounds_magnitudes(values: Seq<Real64>, m: Real64) -> bool {
    forall|i: int|
        0 <= i < values.len() && !(#[trigger] values[i]).spec_is_nan() ==> values[i].magnitude() <= m.bits
}

/// Some value that is a number has the magnitude `m`.
pub open spec fn reaches_magnitude(values: Seq<Real64>, m: Real64) -> bool {
    exists|i: int|
        0 <= i < values.len() && !(#[trigger] values[i]).spec_is_nan() && values[i].magnitude() == m.bits
}

/// The largest magnitude among a leaf's gradients and hessians, zero where there is none. Values
/// that are not numbers do not count.
pub fn largest_magnitude(gradients: &[Real64], hessians: &[Real64], leaf_rows: &[u32]) -> (m: Real64)
    requires
        forall|k: int|
            0 <= k < leaf_rows@.len() ==> #[trigger] leaf_rows@[k] < gradients@.len() && leaf_rows@[k]
                < hessians@.len(),
    ensures
        m.bits <= INFINITE_MAGNITUDE,
        bounds_magnitudes(leaf_histogram::picked(gradients@, leaf_rows@), m),
        bounds_magnitudes(leaf_histogram::picked(hessians@, leaf_rows@), m),
        m.bits == 0 || reaches_magnitude(leaf_histogram::picked(gradients@, leaf_rows@), m)
            || reaches_magnitude(leaf_histogram::picked(hessians@, leaf_rows@), m),
{
    let ghost pg = leaf_histogram::picked(gradients@, leaf_rows@);
    let ghost ph = leaf_histogram::picked(hessians@, leaf_rows@);
    let mut m = Real64::zero();
    let mut k: usize = 0;
    while k < leaf_rows.len()
        invariant
            k <= leaf_rows@.len(),
            pg == leaf_histogram::picked(gradients@, leaf_rows@),
            ph == leaf_histogram::picked(hessians@, leaf_rows@),
            forall|i: int|
                0 <= i < leaf_rows@.len() ==> #[trigger] leaf_rows@[i] < gradients@.len() && leaf_rows@[i]
                    < hessians@.len(),
            m.bits <= INFINITE_MAGNITUDE,
            forall|i: int| 0 <= i < k && !(#[trigger] pg[i]).spec_is_nan() ==> pg[i].magnitude() <= m.bits,
            forall|i: int| 0 <= i < k && !(#[trigger] ph[i]).spec_is_nan() ==> ph[i].magnitude() <= m.bits,
            m.bits == 0 || reaches_magnitude(pg, m) || reaches_magnitude(ph, m),
        decreases leaf_rows@.len() - k,
    {
        let row: usize = leaf_rows[k] as usize;
        let g = gradients[row].abs();
        let h = hessians[row].abs();
        assert(pg[k as int] == gradients@[row as int] && ph[k as int] == hessians@[row as int]);
        if g.above(m) {
            m = g;
            assert(reaches_magnitude(pg, m));
        }
        if h.above(m) {
            m = h;
            assert(reaches_magnitude(ph, m));
        }
        k += 1;
    }
    m
}

/// The magnitude of a signed number.
pub open spec fn spec_magnitude(v: i64) -> int {
    if v < 0 {
        -(v as int)
    } else {
        v as int
    }
}

fn magnitude(v: i64) -> (m: u64)
    ensures
        m == spec_magnitude(v),
{
    if v >= 0 {
        v as u64
    } else {
        (-1 - v) as u64 + 1
    }
}

/// The largest magnitude among the first `n` pairs of fixed-point values.
pub open spec fn largest_fixed(grad: Seq<i64>, hess: Seq<i64>, n: int) -> int
    decreases n,
{
    if n <= 0 {
        0
    } else {
        let before = largest_fixed(grad, hess, n - 1);
        let g = spec_magnitude(grad[n - 1]);
        let h = spec_magnitude(hess[n - 1]);
        let with_g = if g > before {
            g
        } else {
            before
        };
        if h > with_g {
            h
        } else {
            with_g
        }
    }
}

/// No value among the first `n` pairs has a larger magnitude.
pub proof fn largest_fixed_bounds(grad: Seq<i64>, hess: Seq<i64>, n: int)
    requires
        0 <= n <= grad.len(),
        n <= hess.len(),
    ensures
        0 <= largest_fixed(grad, hess, n) <= 0x8000_0000_0000_0000,
        forall|k: int|
            0 <= k < n ==> spec_magnitude(#[trigger] grad[k]) <= largest_fixed(grad, hess, n)
                && spec_magnitude(hess[k]) <= largest_fixed(grad, hess, n),
    decreases n,
{
    if n > 0 {
        largest_fixed_bounds(grad, hess, n - 1);
    }
}

/// A cell's sum might reach the largest signed 64-bit number: the number of rows times the largest
/// magnitude does.
pub open spec fn sums_may_wrap(grad: Seq<i64>, hess: Seq<i64>) -> bool {
    grad.len() * largest_fixed(grad, hess, grad.len() as int) >= i64::MAX
}

/// Whether the fixed-point sums of a leaf's rows might not fit.
pub fn fixed_sums_may_wrap(gradients: &[i64], hessians: &[i64], leaf_rows: &[u32]) -> (r: bool)
    requires
        forall|k: int|
            0 <= k < leaf_rows@.len() ==> #[trigger] leaf_rows@[k] < gradients@.len() && leaf_rows@[k]
                < hessians@.len(),
    ensures
        r == sums_may_wrap(
            leaf_histogram::picked(gradients@, leaf_rows@),
            leaf_histogram::picked(hessians@, leaf_rows@),
        ),
{
    let ghost pg = leaf_histogram::picked(gradients@, leaf_rows@);
    let ghost ph = leaf_histogram::picked(hessians@, leaf_rows@);
    let mut largest: u64 = 0;
    let mut k: usize = 0;
    while k < leaf_rows.len()
        invariant
            k <= leaf_rows@.len(),
            pg == leaf_histogram::picked(gradients@, leaf_rows@),
            ph == leaf_histogram::picked(hessians@, leaf_rows@),
            forall|i: int|
                0 <= i < leaf_rows@.len() ==> #[trigger] leaf_rows@[i] < gradients@.len() && leaf_rows@[i]
                    < hessians@.len(),
            largest == largest_fixed(pg, ph, k as int),
        decreases leaf_rows@.len() - k,
    {
        let row: usize = leaf_rows[k] as usize;
        let g: u64 = magnitude(gradients[row]);
        let h: u64 = magnitude(hessians[row]);
        assert(pg[k as int] == gradients@[row as int] && ph[k as int] == hessians@[row as int]);
        if g > largest {
            largest = g;
        }
        if h > largest {
            largest = h;
        }
        k += 1;
    }
    let rows: u128 = leaf_rows.len() as u128;
    assert(rows * largest <= 0xffff_ffff_ffff_ffff * 0xffff_ffff_ffff_ffff) by (nonlinear_arith)
        requires
            0 <= rows <= 0xffff_ffff_ffff_ffff,
            0 <= largest <= 0xffff_ffff_ffff_ffff,
    ;
    rows * largest as u128 >= i64::MAX as u128
}

/// No cell of a feature wrapped: read as a signed number, it is the exact sum of what the rows
/// bring to it.
pub open spec fn cells_are_exact(
    bins: Seq<u32>,
    num_data: int,
    rows: Seq<u32>,
    grad: Seq<i64>,
    hess: Seq<i64>,
    slot_off: Seq<u32>,
    features: int,
    raw: Seq<u64>,
) -> bool {
    forall|f: int, c: int|
        0 <= f < features && #[trigger] slot_off[f] <= c < slot_off[f + 1] && c < raw.len()
            ==> fix_compact::spec_signed_bits(#[trigger] raw[c]) == fixed_build::cell_sum(
            fixed_build::column_bins(bins, num_data, f, rows),
            grad,
            hess,
            c - slot_off[f],
            rows.len() as int,
        )
}

/// A build of zeroed cells whose sums cannot reach the limit is exact.
pub proof fn guarded_build_is_exact(
    bins: Seq<u32>,
    num_data: int,
    rows: Seq<u32>,
    grad: Seq<i64>,
    hess: Seq<i64>,
    slot_off: Seq<u32>,
    features: int,
    cells: int,
    raw: Seq<u64>,
)
    requires
        grad.len() == rows.len(),
        hess.len() == rows.len(),
        0 <= features < slot_off.len(),
        0 <= cells,
        !sums_may_wrap(grad, hess),
        fixed_build::is_fixed_build(
            bins,
            num_data,
            rows,
            grad,
            hess,
            slot_off,
            features,
            histogram::filled(cells, 0u64),
            raw,
        ),
    ensures
        cells_are_exact(bins, num_data, rows, grad, hess, slot_off, features, raw),
{
    let n = rows.len() as int;
    let bound = largest_fixed(grad, hess, n);
    largest_fixed_bounds(grad, hess, n);
    assert forall|f: int, c: int|
        0 <= f < features && #[trigger] slot_off[f] <= c < slot_off[f + 1] && c < raw.len() implies fix_compact::spec_signed_bits(
        #[trigger] raw[c],
    ) == fixed_build::cell_sum(
        fixed_build::column_bins(bins, num_data, f, rows),
        grad,
        hess,
        c - slot_off[f],
        rows.len() as int,
    ) by {
        let binned = fixed_build::column_bins(bins, num_data, f, rows);
        assert(histogram::filled(cells, 0u64)[c] == 0);
        fixed_build::guarded_sum_is_exact(binned, grad, hess, c - slot_off[f], bound);
    }
}

/// The text of the fault of sums that may not fit.
pub open spec fn overflow_text() -> Seq<char> {
    "fixed-point histogram accumulation may overflow i64 at S=2^30 (rows x |value| x 2^30 exceeds i64::MAX)"@
}

/// The fault of a build with compaction: sums that may not fit, or a region that does not.
pub open spec fn build_fix_compact_fault(
    may_overflow: bool,
    grad: Seq<i64>,
    hess: Seq<i64>,
    fix_feats: Seq<(usize, u32, i32, u32)>,
    slot_len: usize,
) -> Option<Fault> {
    if may_overflow || sums_may_wrap(grad, hess) {
        Some(Fault::Runtime(overflow_text()))
    } else {
        fix_compact::first_region_fault("build_fix_compact_resident"@, fix_feats, slot_len as nat, 0)
    }
}

/// Build the fixed-point histogram of the leaf's rows, scale it and compact the given regions.
/// The build is refused where the sums of the rows might not fit: by the fixed-point values
/// themselves, or by the unscaled ones, of which `may_overflow` speaks. So no cell of a build that
/// succeeds has wrapped. Without regions every cell is `zero`.
pub fn build_fix_compact_resident_f64_on<C: Copy, F: Fn(i64) -> C>(
    scale: &F,
    zero: C,
    bins: &BinColumn,
    num_data: usize,
    slot_off: &[usize],
    slot_len: usize,
    leaf_rows: &[u32],
    gradients: &[i64],
    hessians: &[i64],
    fix_feats: &[(usize, u32, i32, u32)],
    choice: &GroupChoice<'_>,
    resident_gh: bool,
    may_overflow: bool,
) -> (r: Result<Vec<C>, ComputeError>)
    requires
        choice.wf(),
        slot_off@.len() <= u32::MAX,
        fix_compact::scales_all(*scale),
        leaf_rows@.len() > 0 && slot_off@.len() > 0 && !may_overflow && !sums_may_wrap(
            leaf_histogram::picked(gradients@, leaf_rows@),
            leaf_histogram::picked(hessians@, leaf_rows@),
        ) ==> resident_inputs_fit(bins@, num_data as int, slot_off@, slot_len, leaf_rows@),
        forall|k: int|
            0 <= k < leaf_rows@.len() ==> #[trigger] leaf_rows@[k] < gradients@.len() && leaf_rows@[k]
                < hessians@.len(),
    ensures
        error::fails_as(
            r,
            build_fix_compact_fault(
                may_overflow,
                leaf_histogram::picked(gradients@, leaf_rows@),
                leaf_histogram::picked(hessians@, leaf_rows@),
                fix_feats@,
                slot_len,
            ),
        ),
        r matches Ok(out) ==> if fix_feats@.len() == 0 {
            out@ == histogram::filled(slot_len as int, zero)
        } else {
            exists|raw: Seq<u64>| #[trigger]
                fixed_build::is_fixed_build(
                    bins@,
                    num_data as int,
                    leaf_rows@,
                    leaf_histogram::picked(gradients@, leaf_rows@),
                    leaf_histogram::picked(hessians@, leaf_rows@),
                    row_partition::with_sentinel(slot_off@, slot_len),
                    slot_off@.len() as int,
                    histogram::filled(slot_len as int, 0u64),
                    raw,
                ) && cells_are_exact(
                    bins@,
                    num_data as int,
                    leaf_rows@,
                    leaf_histogram::picked(gradients@, leaf_rows@),
                    leaf_histogram::picked(hessians@, leaf_rows@),
                    row_partition::with_sentinel(slot_off@, slot_len),
                    slot_off@.len() as int,
                    raw,
                ) && fix_compact::is_fix_compact(*scale, zero, raw, fix_feats@, out@)
        },
{
    if may_overflow || fixed_sums_may_wrap(gradients, hessians, leaf_rows) {
        return Err(
            error::runtime_error(
                "fixed-point histogram accumulation may overflow i64 at S=2^30 (rows x |value| x 2^30 exceeds i64::MAX)",
            ),
        );
    }
    let mut raw: Vec<u64> = histogram::zeroed(slot_len, 0u64);
    resident_raw_build_into(
        bins,
        num_data,
        slot_off,
        slot_len,
        leaf_rows,
        gradients,
        hessians,
        choice,
        resident_gh,
        &mut raw,
    );
    if fix_feats.len() == 0 {
        return Ok(histogram::zeroed(slot_len, zero));
    }
    fix_compact::check_regions("build_fix_compact_resident", fix_feats, slot_len)?;
    let out: Vec<C> = fix_compact::fix_compact_kernel(scale, zero, raw.as_slice(), fix_feats);
    proof {
        guarded_build_is_exact(
            bins@,
            num_data as int,
            leaf_rows@,
            leaf_histogram::picked(gradients@, leaf_rows@),
            leaf_histogram::picked(hessians@, leaf_rows@),
            row_partition::with_sentinel(slot_off@, slot_len),
            slot_off@.len() as int,
            slot_len as int,
            raw@,
        );
    }
    assert(fixed_build::is_fixed_build(
        bins@,
        num_data as int,
        leaf_rows@,
        leaf_histogram::picked(gradients@, leaf_rows@),
        leaf_histogram::picked(hessians@, leaf_rows@),
        row_partition::with_sentinel(slot_off@, slot_len),
        slot_off@.len() as int,
        histogram::filled(slot_len as int, 0u64),
        raw@,
    ));
    Ok(out)
}

} // verus!
