//! The build of a leaf's histogram with an addition that the caller supplies: row by row into the
//! cells, or group by group into sub-histograms that are merged.
use crate::bin_column::BinColumn;
use crate::fold;
use crate::kernels::fixed_build;
use crate::kernels::hist_region;
use crate::kernels::histogram;
use crate::stable;
use vstd::prelude::*;

verus! {

/// The cells of feature `f`.
pub open spec fn feature_cells<C>(cells: Seq<C>, bounds: Seq<u32>, f: int) -> Seq<C> {
    cells.subrange(bounds[f] as int, bounds[f + 1] as int)
}

/// How many bins the cells of feature `f` hold.
pub open spec fn feature_bin_count(bounds: Seq<u32>, f: int) -> u32 {
    ((bounds[f + 1] - bounds[f]) / 2) as u32
}

/// The inputs of a build fit, and every feature has two cells per bin.
pub open spec fn paired_inputs_fit(
    bins: Seq<u32>,
    num_data: int,
    rows: Seq<u32>,
    bounds: Seq<u32>,
    cells: int,
) -> bool {
    &&& fixed_build::build_inputs_fit(bins, num_data, rows, bounds, cells)
    &&& forall|f: int| 0 <= f < bounds.len() - 1 ==> (#[trigger] bounds[f + 1] - bounds[f]) % 2 == 0
}

/// `after` is `before` with each row folded into the cells of its bins, feature by feature, in row
/// order; cells that no feature covers are as they were.
pub open spec fn is_row_build<C, V, A: Fn(C, V) -> C>(
    add_to: A,
    bins: Seq<u32>,
    num_data: int,
    rows: Seq<u32>,
    grad: Seq<V>,
    hess: Seq<V>,
    bounds: Seq<u32>,
    features: int,
    before: Seq<C>,
    after: Seq<C>,
) -> bool {
    &&& after.len() == before.len()
    &&& forall|f: int|
        0 <= f < features ==> histogram::is_histogram(
            add_to,
            feature_cells(before, bounds, f),
            fixed_build::column_bins(bins, num_data, f, rows),
            grad,
            hess,
            feature_bin_count(bounds, f),
            #[trigger] feature_cells(after, bounds, f),
        )
    &&& forall|c: int|
        0 <= c < before.len() && (c < bounds[0] || c >= bounds[features]) ==> #[trigger] after[c] == before[c]
}

/// A copy of the cells from `from` up to `to`.
fn copied<C: Copy>(cells: &Vec<C>, from: usize, to: usize) -> (part: Vec<C>)
    requires
        from <= to <= cells@.len(),
    ensures
        part@ == cells@.subrange(from as int, to as int),
{
    let mut part: Vec<C> = Vec::with_capacity(to - from);
    let mut i: usize = from;
    while i < to
        invariant
            from <= i <= to,
            to <= cells@.len(),
            part@ == cells@.subrange(from as int, i as int),
        decreases to - i,
    {
        part.push(cells[i]);
        i += 1;
        assert(part@ =~= cells@.subrange(from as int, i as int));
    }
    part
}

/// Fold every row into the cells of its bins, for every feature.
pub fn construct_leaf_hist_resident_kernel<C: Copy, V: Copy, A: Fn(C, V) -> C>(
    add_to: &A,
    bins: &BinColumn,
    num_data: usize,
    leaf_rows: &[u32],
    ord_g: &[V],
    ord_h: &[V],
    bounds: &[u32],
    out: &mut Vec<C>,
)
    requires
        fold::is_total(*add_to),
        ord_g@.len() == leaf_rows@.len(),
        ord_h@.len() == leaf_rows@.len(),
        paired_inputs_fit(bins@, num_data as int, leaf_rows@, bounds@, old(out)@.len() as int),
    ensures
        is_row_build(
            *add_to,
            bins@,
            num_data as int,
            leaf_rows@,
            ord_g@,
            ord_h@,
            bounds@,
            bounds@.len() - 1,
            old(out)@,
            final(out)@,
        ),
{
    let ghost before = out@;
    let cells: usize = out.len();
    let num_features: usize = bounds.len() - 1;
    let mut f: usize = 0;
    while f < num_features
        invariant
            f <= num_features,
            num_features == bounds@.len() - 1,
            cells == before.len(),
            out@.len() == cells,
            fold::is_total(*add_to),
            ord_g@.len() == leaf_rows@.len(),
            ord_h@.len() == leaf_rows@.len(),
            paired_inputs_fit(bins@, num_data as int, leaf_rows@, bounds@, cells as int),
            is_row_build(
                *add_to,
                bins@,
                num_data as int,
                leaf_rows@,
                ord_g@,
                ord_h@,
                bounds@,
                f as int,
                before,
                out@,
            ),
        decreases num_features - f,
    {
        let ghost held = out@;
        let base: usize = bounds[f] as usize;
        let end: usize = bounds[f + 1] as usize;
        proof {
            assert(bounds@[0] <= bounds@[f as int]);
            assert(bounds@[f as int] <= bounds@[f + 1]);
            assert(bounds@[f + 1] <= bounds@[bounds@.len() - 1]);
            assert((bounds@[f + 1] - bounds@[f as int]) % 2 == 0);
        }
        let num_bin: u32 = (bounds[f + 1] - bounds[f]) / 2;
        let binned: Vec<u32> = fixed_build::feature_bins(bins, num_data, f, num_features, leaf_rows);
        let mut region: Vec<C> = copied(&*out, base, end);
        proof {
            let column = fixed_build::column_bins(bins@, num_data as int, f as int, leaf_rows@);
            assert(fixed_build::bins_fit(column, end - base));
            assert forall|k: int| 0 <= k < binned@.len() implies #[trigger] binned@[k] < num_bin by {
                assert(2 * column[k] + 1 < end - base);
            }
            assert(region@ =~= feature_cells(before, bounds@, f as int));
        }
        histogram::construct_hist_kernel(
            add_to,
            binned.as_slice(),
            ord_g,
            ord_h,
            num_bin,
            region.as_mut_slice(),
        );
        hist_region::paste(out, base, region.as_slice());
        proof {
            assert(feature_cells(out@, bounds@, f as int) =~= region@);
            assert forall|e: int| 0 <= e < f + 1 implies histogram::is_histogram(
                *add_to,
                feature_cells(before, bounds@, e),
                fixed_build::column_bins(bins@, num_data as int, e, leaf_rows@),
                ord_g@,
                ord_h@,
                feature_bin_count(bounds@, e),
                #[trigger] feature_cells(out@, bounds@, e),
            ) by {
                if e < f {
                    assert(bounds@[e] <= bounds@[e + 1]);
                    assert(bounds@[e + 1] <= bounds@[f as int]);
                    assert(feature_cells(out@, bounds@, e) =~= feature_cells(held, bounds@, e));
                }
            }
        }
        f += 1;
    }
}

/// Which of `n` rows group `y` takes in.
pub open spec fn group_marks(n: int, y: int, groups: int) -> Seq<bool> {
    Seq::new(n as nat, |k: int| fixed_build::group_of(k, groups) == y)
}

/// The sub-histogram of group `y`: its rows, folded in row order from zeroed cells.
pub open spec fn is_group_histogram<C, V, A: Fn(C, V) -> C>(
    add_to: A,
    zero: C,
    binned: Seq<u32>,
    grad: Seq<V>,
    hess: Seq<V>,
    num_bin: u32,
    y: int,
    groups: int,
    sub: Seq<C>,
) -> bool {
    let marks = group_marks(binned.len() as int, y, groups);
    histogram::is_histogram(
        add_to,
        histogram::filled(2 * num_bin, zero),
        stable::chosen(binned, marks, true),
        stable::chosen(grad, marks, true),
        stable::chosen(hess, marks, true),
        num_bin,
        sub,
    )
}

/// Cell `c` of each of the first `n` sub-histograms.
pub open spec fn cell_of_each<C>(subs: Seq<Seq<C>>, n: int, c: int) -> Seq<C> {
    Seq::new(n as nat, |y: int| subs[y][c])
}

/// `after` is `before` with each cell merged with that cell of every sub-histogram, group by
/// group.
pub open spec fn is_merged<C, M: Fn(C, C) -> C>(merge: M, before: Seq<C>, subs: Seq<Seq<C>>, n: int, after: Seq<C>) -> bool {
    &&& after.len() == before.len()
    &&& forall|c: int|
        0 <= c < before.len() ==> fold::folds_to(merge, before[c], cell_of_each(subs, n, c), #[trigger] after[c])
}

/// The cells of one feature after a build in groups: the sub-histograms of the groups, merged.
pub open spec fn is_group_build<C, V, A: Fn(C, V) -> C, M: Fn(C, C) -> C>(
    add_to: A,
    merge: M,
    zero: C,
    binned: Seq<u32>,
    grad: Seq<V>,
    hess: Seq<V>,
    num_bin: u32,
    groups: int,
    before: Seq<C>,
    after: Seq<C>,
) -> bool {
    exists|subs: Seq<Seq<C>>|
        {
            &&& #[trigger] is_merged(merge, before, subs, groups, after)
            &&& subs.len() == groups
            &&& forall|y: int|
                0 <= y < groups ==> is_group_histogram(
                    add_to,
                    zero,
                    binned,
                    grad,
                    hess,
                    num_bin,
                    y,
                    groups,
                    #[trigger] subs[y],
                )
        }
}

/// The entries of the rows that group `y` takes in.
fn group_entries<T: Copy>(entries: &[T], y: usize, groups: usize) -> (kept: Vec<T>)
    requires
        groups >= 1,
    ensures
        kept@ == stable::chosen(entries@, group_marks(entries@.len() as int, y as int, groups as int), true),
{
    let ghost marks = group_marks(entries@.len() as int, y as int, groups as int);
    let mut kept: Vec<T> = Vec::new();
    let mut k: usize = 0;
    while k < entries.len()
        invariant
            k <= entries@.len(),
            groups >= 1,
            marks == group_marks(entries@.len() as int, y as int, groups as int),
            kept@ == stable::chosen(entries@.take(k as int), marks.take(k as int), true),
        decreases entries@.len() - k,
    {
        proof {
            stable::chosen_extends(entries@, marks, k as int, true);
        }
        if (k / fixed_build::GROUP_ROWS) % groups == y {
            kept.push(entries[k]);
        }
        k += 1;
    }
    assert(entries@.take(k as int) =~= entries@);
    assert(marks.take(k as int) =~= marks);
    kept
}

/// Every kept entry is one of the entries.
proof fn kept_bins_are_bins(binned: Seq<u32>, marks: Seq<bool>, num_bin: u32)
    requires
        marks.len() == binned.len(),
        forall|k: int| 0 <= k < binned.len() ==> #[trigger] binned[k] < num_bin,
    ensures
        forall|k: int|
            0 <= k < stable::chosen(binned, marks, true).len() ==> #[trigger] stable::chosen(binned, marks, true)[k]
                < num_bin,
    decreases binned.len(),
{
    if binned.len() > 0 {
        assert(binned[binned.len() - 1] < num_bin);
        kept_bins_are_bins(binned.drop_last(), marks.drop_last(), num_bin);
        let rest = stable::chosen(binned.drop_last(), marks.drop_last(), true);
        let kept = stable::chosen(binned, marks, true);
        assert forall|k: int| 0 <= k < kept.len() implies #[trigger] kept[k] < num_bin by {
            if k < rest.len() {
                assert(kept[k] == rest[k]);
            }
        }
    }
}

/// Build one feature's cells in groups.
fn build_in_groups<C: Copy, V: Copy, A: Fn(C, V) -> C, M: Fn(C, C) -> C>(
    add_to: &A,
    merge: &M,
    zero: C,
    binned: &[u32],
    grad: &[V],
    hess: &[V],
    num_bin: u32,
    groups: usize,
    region: &mut Vec<C>,
)
    requires
        groups >= 1,
        fold::is_total(*add_to),
        fold::is_total(*merge),
        grad@.len() == binned@.len(),
        hess@.len() == binned@.len(),
        old(region)@.len() == 2 * num_bin,
        forall|k: int| 0 <= k < binned@.len() ==> #[trigger] binned@[k] < num_bin,
    ensures
        is_group_build(
            *add_to,
            *merge,
            zero,
            binned@,
            grad@,
            hess@,
            num_bin,
            groups as int,
            old(region)@,
            final(region)@,
        ),
{
    let ghost before = region@;
    let cells: usize = region.len();
    let ghost mut subs: Seq<Seq<C>> = Seq::empty();
    let mut y: usize = 0;
    while y < groups
        invariant
            y <= groups,
            groups >= 1,
            fold::is_total(*add_to),
            fold::is_total(*merge),
            grad@.len() == binned@.len(),
            hess@.len() == binned@.len(),
            cells == 2 * num_bin,
            before.len() == cells,
            forall|k: int| 0 <= k < binned@.len() ==> #[trigger] binned@[k] < num_bin,
            subs.len() == y,
            forall|e: int|
                0 <= e < y ==> is_group_histogram(
                    *add_to,
                    zero,
                    binned@,
                    grad@,
                    hess@,
                    num_bin,
                    e,
                    groups as int,
                    #[trigger] subs[e],
                ),
            is_merged(*merge, before, subs, y as int, region@),
        decreases groups - y,
    {
        let kept: Vec<u32> = group_entries(binned, y, groups);
        let kept_g: Vec<V> = group_entries(grad, y, groups);
        let kept_h: Vec<V> = group_entries(hess, y, groups);
        let mut sub: Vec<C> = histogram::zeroed(cells, zero);
        let ghost marks = group_marks(binned@.len() as int, y as int, groups as int);
        proof {
            stable::chosen_len(binned@, marks, true);
            stable::chosen_len(grad@, marks, true);
            stable::chosen_len(hess@, marks, true);
            kept_bins_are_bins(binned@, marks, num_bin);
        }
        histogram::construct_hist_kernel(
            add_to,
            kept.as_slice(),
            kept_g.as_slice(),
            kept_h.as_slice(),
            num_bin,
            sub.as_mut_slice(),
        );
        let ghost held = region@;
        let ghost held_subs = subs;
        let mut m: usize = 0;
        while m < cells
            invariant
                m <= cells,
                region@.len() == cells,
                held.len() == cells,
                sub@.len() == cells,
                fold::is_total(*merge),
                forall|c: int|
                    0 <= c < m ==> call_ensures(*merge, (held[c], sub@[c]), #[trigger] region@[c]),
                forall|c: int| m <= c < cells ==> #[trigger] region@[c] == held[c],
            decreases cells - m,
        {
            let merged: C = merge(region[m], sub[m]);
            region.set(m, merged);
            m += 1;
        }
        proof {
            subs = subs.push(sub@);
            assert forall|e: int| 0 <= e < y + 1 implies is_group_histogram(
                *add_to,
                zero,
                binned@,
                grad@,
                hess@,
                num_bin,
                e,
                groups as int,
                #[trigger] subs[e],
            ) by {
                if e < y {
                    assert(subs[e] == held_subs[e]);
                }
            }
            assert forall|c: int| 0 <= c < before.len() implies fold::folds_to(
                *merge,
                before[c],
                cell_of_each(subs, y + 1, c),
                #[trigger] region@[c],
            ) by {
                assert(fold::folds_to(*merge, before[c], cell_of_each(held_subs, y as int, c), held[c]));
                assert(cell_of_each(subs, y + 1, c) =~= cell_of_each(held_subs, y as int, c).push(sub@[c]));
                fold::fold_extends(
                    *merge,
                    before[c],
                    cell_of_each(held_subs, y as int, c),
                    held[c],
                    sub@[c],
                    region@[c],
                );
            }
        }
        y += 1;
    }
}

/// `after` is `before` with every feature's cells built in groups; cells that no feature covers
/// are as they were.
pub open spec fn is_grouped_build<C, V, A: Fn(C, V) -> C, M: Fn(C, C) -> C>(
    add_to: A,
    merge: M,
    zero: C,
    bins: Seq<u32>,
    num_data: int,
    rows: Seq<u32>,
    grad: Seq<V>,
    hess: Seq<V>,
    bounds: Seq<u32>,
    features: int,
    groups: int,
    before: Seq<C>,
    after: Seq<C>,
) -> bool {
    &&& after.len() == before.len()
    &&& forall|f: int|
        0 <= f < features ==> is_group_build(
            add_to,
            merge,
            zero,
            fixed_build::column_bins(bins, num_data, f, rows),
            grad,
            hess,
            feature_bin_count(bounds, f),
            groups,
            feature_cells(before, bounds, f),
            #[trigger] feature_cells(after, bounds, f),
        )
    &&& forall|c: int|
        0 <= c < before.len() && (c < bounds[0] || c >= bounds[features]) ==> #[trigger] after[c] == before[c]
}

/// Build every feature's cells in groups of rows: each group folds its rows into a sub-histogram,
/// and the sub-histograms are merged into the cells.
pub fn construct_leaf_hist_resident_lds_kernel<C: Copy, V: Copy, A: Fn(C, V) -> C, M: Fn(C, C) -> C>(
    add_to: &A,
    merge: &M,
    zero: C,
    bins: &BinColumn,
    num_data: usize,
    leaf_rows: &[u32],
    ord_g: &[V],
    ord_h: &[V],
    bounds: &[u32],
    groups: u32,
    out: &mut Vec<C>,
)
    requires
        groups >= 1,
        fold::is_total(*add_to),
        fold::is_total(*merge),
        ord_g@.len() == leaf_rows@.len(),
        ord_h@.len() == leaf_rows@.len(),
        paired_inputs_fit(bins@, num_data as int, leaf_rows@, bounds@, old(out)@.len() as int),
        forall|f: int|
            0 <= f < bounds@.len() - 1 ==> (#[trigger] bounds@[f + 1]) - bounds@[f] <= fixed_build::HIST_LDS_MAX,
    ensures
        is_grouped_build(
            *add_to,
            *merge,
            zero,
            bins@,
            num_data as int,
            leaf_rows@,
            ord_g@,
            ord_h@,
            bounds@,
            bounds@.len() - 1,
            groups as int,
            old(out)@,
            final(out)@,
        ),
{
    let ghost before = out@;
    let cells: usize = out.len();
    let num_features: usize = bounds.len() - 1;
    let mut f: usize = 0;
    while f < num_features
        invariant
            f <= num_features,
            num_features == bounds@.len() - 1,
            groups >= 1,
            cells == before.len(),
            out@.len() == cells,
            fold::is_total(*add_to),
            fold::is_total(*merge),
            ord_g@.len() == leaf_rows@.len(),
            ord_h@.len() == leaf_rows@.len(),
            paired_inputs_fit(bins@, num_data as int, leaf_rows@, bounds@, cells as int),
            is_grouped_build(
                *add_to,
                *merge,
                zero,
                bins@,
                num_data as int,
                leaf_rows@,
                ord_g@,
                ord_h@,
                bounds@,
                f as int,
                groups as int,
                before,
                out@,
            ),
        decreases num_features - f,
    {
        let ghost held = out@;
        let base: usize = bounds[f] as usize;
        let end: usize = bounds[f + 1] as usize;
        proof {
            assert(bounds@[0] <= bounds@[f as int]);
            assert(bounds@[f as int] <= bounds@[f + 1]);
            assert(bounds@[f + 1] <= bounds@[bounds@.len() - 1]);
            assert((bounds@[f + 1] - bounds@[f as int]) % 2 == 0);
        }
        let num_bin: u32 = (bounds[f + 1] - bounds[f]) / 2;
        let binned: Vec<u32> = fixed_build::feature_bins(bins, num_data, f, num_features, leaf_rows);
        let mut region: Vec<C> = copied(&*out, base, end);
        proof {
            let column = fixed_build::column_bins(bins@, num_data as int, f as int, leaf_rows@);
            assert(fixed_build::bins_fit(column, end - base));
            assert forall|k: int| 0 <= k < binned@.len() implies #[trigger] binned@[k] < num_bin by {
                assert(2 * column[k] + 1 < end - base);
            }
            assert(region@ =~= feature_cells(before, bounds@, f as int));
        }
        build_in_groups(
            add_to,
            merge,
            zero,
            binned.as_slice(),
            ord_g,
            ord_h,
            num_bin,
            groups as usize,
            &mut region,
        );
        hist_region::paste(out, base, region.as_slice());
        proof {
            assert(feature_cells(out@, bounds@, f as int) =~= region@);
            assert forall|e: int| 0 <= e < f + 1 implies is_group_build(
                *add_to,
                *merge,
                zero,
                fixed_build::column_bins(bins@, num_data as int, e, leaf_rows@),
                ord_g@,
                ord_h@,
                feature_bin_count(bounds@, e),
                groups as int,
                feature_cells(before, bounds@, e),
                #[trigger] feature_cells(out@, bounds@, e),
            ) by {
                if e < f {
                    assert(bounds@[e] <= bounds@[e + 1]);
                    assert(bounds@[e + 1] <= bounds@[f as int]);
                    assert(feature_cells(out@, bounds@, e) =~= feature_cells(held, bounds@, e));
                }
            }
        }
        f += 1;
    }
}

/// With one group the sub-histogram takes in every row in its order.
pub proof fn one_group_takes_every_row<T>(entries: Seq<T>)
    ensures
        stable::chosen(entries, group_marks(entries.len() as int, 0, 1), true) == entries,
    decreases entries.len(),
{
    let marks = group_marks(entries.len() as int, 0, 1);
    if entries.len() > 0 {
        let less = entries.drop_last();
        one_group_takes_every_row(less);
        assert(marks.drop_last() =~= group_marks(less.len() as int, 0, 1));
        assert(less.push(entries.last()) =~= entries);
    } else {
        assert(stable::chosen(entries, marks, true) =~= entries);
    }
}

} // verus!
