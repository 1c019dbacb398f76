//! The scores of all rows, to which the leaf values of each tree are added, and the sums that a
//! tree starts from.
use crate::dataset::LeafPartitionLayout;
use crate::error;
use crate::error::{ComputeError, Fault};
use crate::fold;
use crate::kernels::histogram;
use crate::stable;
use crate::text;
use vstd::prelude::*;

verus! {

/// The scores of all rows, kept from tree to tree.
pub struct ResidentScore<C> {
    score: Vec<C>,
}

impl<C> View for ResidentScore<C> {
    type V = Seq<C>;

    /// The score of each row.
    closed spec fn view(&self) -> Seq<C> {
        self.score@
    }
}

/// The rows of the first `n` leaves, leaf by leaf.
pub open spec fn scored_rows(layout: LeafPartitionLayout, n: int) -> Seq<u32>
    decreases n,
{
    if n <= 0 {
        Seq::empty()
    } else {
        let begin = layout.leaf_begin@[n - 1] as int;
        scored_rows(layout, n - 1) + layout.indices@.subrange(begin, begin + layout.leaf_count@[n - 1])
    }
}

/// The leaf value of each of the rows of the first `n` leaves.
pub open spec fn scored_values<C>(layout: LeafPartitionLayout, leaf_values: Seq<C>, n: int) -> Seq<C>
    decreases n,
{
    if n <= 0 {
        Seq::empty()
    } else {
        scored_values(layout, leaf_values, n - 1) + Seq::new(
            layout.leaf_count@[n - 1] as nat,
            |k: int| leaf_values[n - 1],
        )
    }
}

/// The values that row `row` gets, in their order.
pub open spec fn row_values<C>(rows: Seq<u32>, values: Seq<C>, row: int) -> Seq<C> {
    stable::chosen(values, histogram::in_bin(rows, row), true)
}

/// `after` is `before` with each of the values added to its row, in their order.
pub open spec fn is_scored<C, F: Fn(C, C) -> C>(
    add_to: F,
    before: Seq<C>,
    rows: Seq<u32>,
    values: Seq<C>,
    after: Seq<C>,
) -> bool {
    &&& after.len() == before.len()
    &&& forall|row: int|
        0 <= row < before.len() ==> fold::folds_to(
            add_to,
            before[row],
            row_values(rows, values, row),
            #[trigger] after[row],
        )
}

/// A row that stands once among the rows gets the value that stands with it, and no other.
pub proof fn lone_row_gets_its_value<C>(rows: Seq<u32>, values: Seq<C>, p: int)
    requires
        rows.len() == values.len(),
        0 <= p < rows.len(),
        rows.no_duplicates(),
    ensures
        row_values(rows, values, rows[p] as int) == seq![values[p]],
    decreases rows.len(),
{
    let row = rows[p] as int;
    let marks = histogram::in_bin(rows, row);
    let last = rows.len() - 1;
    let less_rows = rows.drop_last();
    let less_values = values.drop_last();
    assert(marks.drop_last() =~= histogram::in_bin(less_rows, row));
    if p == last {
        row_without_value(less_rows, less_values, row);
        assert(row_values(rows, values, row) =~= seq![values[p]]);
    } else {
        assert(rows[last] != rows[p]);
        assert(less_rows.no_duplicates());
        lone_row_gets_its_value(less_rows, less_values, p);
    }
}

/// A row that does not stand among the rows gets nothing.
pub proof fn row_without_value<C>(rows: Seq<u32>, values: Seq<C>, row: int)
    requires
        rows.len() == values.len(),
        forall|i: int| 0 <= i < rows.len() ==> #[trigger] rows[i] != row,
    ensures
        row_values(rows, values, row) == Seq::<C>::empty(),
    decreases rows.len(),
{
    if rows.len() > 0 {
        let marks = histogram::in_bin(rows, row);
        assert(marks.drop_last() =~= histogram::in_bin(rows.drop_last(), row));
        assert(rows[rows.len() - 1] != row);
        row_without_value(rows.drop_last(), values.drop_last(), row);
    }
}

/// The text of the fault of a leaf whose range is negative.
pub open spec fn negative_range_text(leaf: nat) -> Seq<char> {
    "add_leaf_values: leaf "@ + text::decimal(leaf) + " has a negative range"@
}

/// The fault of the first leaf, from `from` on, whose range is negative or does not fit.
pub open spec fn first_range_fault(layout: LeafPartitionLayout, from: int) -> Option<Fault>
    decreases layout.leaf_begin@.len() - from,
{
    if from >= layout.leaf_begin@.len() {
        None
    } else {
        let begin = layout.leaf_begin@[from] as int;
        let count = layout.leaf_count@[from] as int;
        if begin < 0 || count < 0 {
            Some(Fault::Runtime(negative_range_text(from as nat)))
        } else if begin + count > layout.indices@.len() {
            Some(
                Fault::LengthMismatch {
                    expected: (begin + count) as nat,
                    actual: layout.indices@.len(),
                },
            )
        } else {
            first_range_fault(layout, from + 1)
        }
    }
}

/// The fault of a tree: another number of rows, more leaves than values, or a range that is
/// negative or does not fit.
pub open spec fn add_tree_fault(layout: LeafPartitionLayout, num_data: nat, values: nat) -> Option<Fault> {
    if layout.num_data as usize != num_data {
        Some(Fault::LengthMismatch { expected: num_data, actual: layout.num_data as usize as nat })
    } else if layout.leaf_begin@.len() > values {
        Some(Fault::LengthMismatch { expected: layout.leaf_begin@.len(), actual: values })
    } else {
        first_range_fault(layout, 0)
    }
}

/// Every leaf has a count, and every row number is among the `num_data` rows.
pub open spec fn layout_rows_fit(layout: LeafPartitionLayout, num_data: nat) -> bool {
    &&& layout.leaf_count@.len() == layout.leaf_begin@.len()
    &&& forall|k: int| 0 <= k < layout.indices@.len() ==> #[trigger] layout.indices@[k] < num_data
}

/// Position `p` of the rows lies in the range of leaf `l`.
pub open spec fn in_leaf_range(layout: LeafPartitionLayout, l: int, p: int) -> bool {
    &&& 0 <= l < layout.leaf_begin@.len()
    &&& layout.leaf_begin@[l] <= p < layout.leaf_begin@[l] + layout.leaf_count@[l]
}

/// No position lies in the ranges of two leaves.
pub open spec fn ranges_are_disjoint(layout: LeafPartitionLayout) -> bool {
    forall|i: int, j: int, p: int|
        #![trigger in_leaf_range(layout, i, p), in_leaf_range(layout, j, p)]
        in_leaf_range(layout, i, p) && in_leaf_range(layout, j, p) ==> i == j
}

/// No fault means that every range lies among the rows.
proof fn faultless_ranges_fit(layout: LeafPartitionLayout, from: int, l: int)
    requires
        0 <= from <= l < layout.leaf_begin@.len(),
        first_range_fault(layout, from) is None,
    ensures
        0 <= layout.leaf_begin@[l],
        0 <= layout.leaf_count@[l],
        layout.leaf_begin@[l] + layout.leaf_count@[l] <= layout.indices@.len(),
    decreases l - from,
{
    if from < l {
        faultless_ranges_fit(layout, from + 1, l);
    }
}

/// Each of the rows of the first `n` leaves stands in the range of one of them, with that leaf's
/// value beside it.
proof fn scored_row_has_a_leaf<C>(layout: LeafPartitionLayout, leaf_values: Seq<C>, n: int, q: int) -> (lp: (
    int,
    int,
))
    requires
        0 <= n <= layout.leaf_begin@.len(),
        first_range_fault(layout, 0) is None,
        0 <= q < scored_rows(layout, n).len(),
    ensures
        scored_values(layout, leaf_values, n).len() == scored_rows(layout, n).len(),
        lp.0 < n,
        in_leaf_range(layout, lp.0, lp.1),
        scored_rows(layout, n)[q] == layout.indices@[lp.1],
        scored_values(layout, leaf_values, n)[q] == leaf_values[lp.0],
    decreases n,
{
    scored_lens_agree(layout, leaf_values, n);
    scored_lens_agree(layout, leaf_values, n - 1);
    faultless_ranges_fit(layout, 0, n - 1);
    let head = scored_rows(layout, n - 1).len() as int;
    if q < head {
        scored_row_has_a_leaf(layout, leaf_values, n - 1, q)
    } else {
        (n - 1, layout.leaf_begin@[n - 1] + (q - head))
    }
}

proof fn scored_lens_agree<C>(layout: LeafPartitionLayout, leaf_values: Seq<C>, n: int)
    requires
        n <= layout.leaf_begin@.len(),
        first_range_fault(layout, 0) is None,
    ensures
        scored_values(layout, leaf_values, n).len() == scored_rows(layout, n).len(),
    decreases n,
{
    if n > 0 {
        scored_lens_agree(layout, leaf_values, n - 1);
        faultless_ranges_fit(layout, 0, n - 1);
    }
}

/// Each row in the range of a leaf is scored with that leaf's value.
proof fn leaf_row_is_scored<C>(layout: LeafPartitionLayout, leaf_values: Seq<C>, n: int, l: int, p: int) -> (q: int)
    requires
        0 <= l < n <= layout.leaf_begin@.len(),
        first_range_fault(layout, 0) is None,
        in_leaf_range(layout, l, p),
    ensures
        scored_values(layout, leaf_values, n).len() == scored_rows(layout, n).len(),
        0 <= q < scored_rows(layout, n).len(),
        scored_rows(layout, n)[q] == layout.indices@[p],
        scored_values(layout, leaf_values, n)[q] == leaf_values[l],
    decreases n,
{
    scored_lens_agree(layout, leaf_values, n);
    scored_lens_agree(layout, leaf_values, n - 1);
    faultless_ranges_fit(layout, 0, n - 1);
    if l < n - 1 {
        leaf_row_is_scored(layout, leaf_values, n - 1, l, p)
    } else {
        scored_rows(layout, n - 1).len() + (p - layout.leaf_begin@[l])
    }
}

proof fn scored_rows_are_distinct<C>(layout: LeafPartitionLayout, leaf_values: Seq<C>, n: int)
    requires
        0 <= n <= layout.leaf_begin@.len(),
        first_range_fault(layout, 0) is None,
        layout.indices@.no_duplicates(),
        ranges_are_disjoint(layout),
    ensures
        scored_rows(layout, n).no_duplicates(),
    decreases n,
{
    if n > 0 {
        scored_rows_are_distinct(layout, leaf_values, n - 1);
        faultless_ranges_fit(layout, 0, n - 1);
        let head = scored_rows(layout, n - 1);
        let all = scored_rows(layout, n);
        let begin = layout.leaf_begin@[n - 1] as int;
        assert forall|i: int, j: int| 0 <= i < j < all.len() implies all[i] != all[j] by {
            if i < head.len() && j >= head.len() {
                let (l, p) = scored_row_has_a_leaf(layout, leaf_values, n - 1, i);
                let last = begin + (j - head.len());
                assert(in_leaf_range(layout, n - 1, last));
                faultless_ranges_fit(layout, 0, l);
                assert(all[i] == layout.indices@[p]);
                assert(all[j] == layout.indices@[last]);
                if p == last {
                    assert(in_leaf_range(layout, l, last));
                }
            } else if i >= head.len() {
                assert(all[i] == layout.indices@[begin + (i - head.len())]);
                assert(all[j] == layout.indices@[begin + (j - head.len())]);
            }
        }
    }
}

/// A tree whose rows are distinct and whose leaf ranges are disjoint is scored row by row: no row
/// stands twice among the scored ones, a row in the range of a leaf gets that leaf's value and no
/// other, and a row in no range gets nothing.
pub proof fn each_row_gets_its_leaf_value<C>(layout: LeafPartitionLayout, leaf_values: Seq<C>)
    requires
        layout.leaf_count@.len() == layout.leaf_begin@.len(),
        first_range_fault(layout, 0) is None,
        layout.indices@.no_duplicates(),
        ranges_are_disjoint(layout),
    ensures
        ({
            let n = layout.leaf_begin@.len() as int;
            let rows = scored_rows(layout, n);
            let values = scored_values(layout, leaf_values, n);
            &&& rows.no_duplicates()
            &&& rows.len() == values.len()
            &&& forall|l: int, p: int| #[trigger]
                in_leaf_range(layout, l, p) ==> row_values(rows, values, layout.indices@[p] as int)
                    == seq![leaf_values[l]]
            &&& forall|row: int|
                (forall|l: int, p: int| #[trigger]
                    in_leaf_range(layout, l, p) ==> layout.indices@[p] != row) ==> #[trigger] row_values(
                    rows,
                    values,
                    row,
                ) == Seq::<C>::empty()
        }),
{
    let n = layout.leaf_begin@.len() as int;
    let rows = scored_rows(layout, n);
    let values = scored_values(layout, leaf_values, n);
    scored_lens_agree(layout, leaf_values, n);
    scored_rows_are_distinct(layout, leaf_values, n);
    assert forall|l: int, p: int| #[trigger] in_leaf_range(layout, l, p) implies row_values(
        rows,
        values,
        layout.indices@[p] as int,
    ) == seq![leaf_values[l]] by {
        let q = leaf_row_is_scored(layout, leaf_values, n, l, p);
        lone_row_gets_its_value(rows, values, q);
    }
    assert forall|row: int|
        (forall|l: int, p: int| #[trigger] in_leaf_range(layout, l, p) ==> layout.indices@[p] != row) implies
        #[trigger] row_values(rows, values, row) == Seq::<C>::empty() by {
        assert forall|q: int| 0 <= q < rows.len() implies #[trigger] rows[q] != row by {
            let (l, p) = scored_row_has_a_leaf(layout, leaf_values, n, q);
            assert(in_leaf_range(layout, l, p));
        }
        row_without_value(rows, values, row);
    }
}

/// Scores to which such a tree was added: each row in the range of a leaf has its old score with
/// that leaf's value added, and every other row keeps its score.
pub proof fn tree_is_added_leaf_by_leaf<C, F: Fn(C, C) -> C>(
    add_to: F,
    layout: LeafPartitionLayout,
    leaf_values: Seq<C>,
    before: Seq<C>,
    after: Seq<C>,
)
    requires
        layout_rows_fit(layout, before.len()),
        add_tree_fault(layout, before.len(), leaf_values.len()) is None,
        layout.indices@.no_duplicates(),
        ranges_are_disjoint(layout),
        is_scored(
            add_to,
            before,
            scored_rows(layout, layout.leaf_begin@.len() as int),
            scored_values(layout, leaf_values, layout.leaf_begin@.len() as int),
            after,
        ),
    ensures
        after.len() == before.len(),
        forall|l: int, p: int| #[trigger]
            in_leaf_range(layout, l, p) ==> {
                let row = layout.indices@[p] as int;
                0 <= row < before.len() && call_ensures(add_to, (before[row], leaf_values[l]), after[row])
            },
        forall|row: int|
            0 <= row < before.len() && (forall|l: int, p: int| #[trigger]
                in_leaf_range(layout, l, p) ==> layout.indices@[p] != row) ==> #[trigger] after[row]
                == before[row],
{
    each_row_gets_its_leaf_value(layout, leaf_values);
    let n = layout.leaf_begin@.len() as int;
    let rows = scored_rows(layout, n);
    let values = scored_values(layout, leaf_values, n);
    assert forall|l: int, p: int| #[trigger] in_leaf_range(layout, l, p) implies ({
        let row = layout.indices@[p] as int;
        0 <= row < before.len() && call_ensures(add_to, (before[row], leaf_values[l]), after[row])
    }) by {
        faultless_ranges_fit(layout, 0, l);
        let row = layout.indices@[p] as int;
        let got = row_values(rows, values, row);
        assert(got == seq![leaf_values[l]]);
        assert(after[row] == after[row]);
        assert(fold::folds_to(add_to, before[row], got, after[row]));
        let mid = choose|mid: C|
            fold::folds_to(add_to, before[row], got.drop_last(), mid) && #[trigger] call_ensures(
                add_to,
                (mid, got.last()),
                after[row],
            );
        assert(got.drop_last().len() == 0);
    }
    assert forall|row: int|
        0 <= row < before.len() && (forall|l: int, p: int| #[trigger]
            in_leaf_range(layout, l, p) ==> layout.indices@[p] != row) implies #[trigger] after[row]
        == before[row] by {
        assert(row_values(rows, values, row) == Seq::<C>::empty());
        assert(fold::folds_to(add_to, before[row], row_values(rows, values, row), after[row]));
    }
}

/// Check a tree before its values are added to `num_data` scores.
pub fn check_tree(layout: &LeafPartitionLayout, num_data: usize, values: usize) -> (r: Result<
    (),
    ComputeError,
>)
    requires
        layout.leaf_count@.len() == layout.leaf_begin@.len(),
    ensures
        error::fails_as(r, add_tree_fault(*layout, num_data as nat, values as nat)),
        r is Ok ==> layout.leaf_begin@.len() <= values && forall|l: int|
            0 <= l < layout.leaf_begin@.len() ==> 0 <= #[trigger] layout.leaf_begin@[l] && 0
                <= layout.leaf_count@[l] && layout.leaf_begin@[l] + layout.leaf_count@[l] <= layout.indices@.len(),
{
    let rows: usize = layout.num_data as usize;
    if rows != num_data {
        return Err(ComputeError::LengthMismatch { expected: num_data, actual: rows });
    }
    if layout.leaf_begin.len() > values {
        return Err(ComputeError::LengthMismatch { expected: layout.leaf_begin.len(), actual: values });
    }
    check_ranges(layout)
}

/// Check that every leaf's range is not negative and fits.
fn check_ranges(layout: &LeafPartitionLayout) -> (r: Result<(), ComputeError>)
    requires
        layout.leaf_count@.len() == layout.leaf_begin@.len(),
    ensures
        error::fails_as(r, first_range_fault(*layout, 0)),
        r is Ok ==> forall|l: int|
            0 <= l < layout.leaf_begin@.len() ==> 0 <= #[trigger] layout.leaf_begin@[l] && 0
                <= layout.leaf_count@[l] && layout.leaf_begin@[l] + layout.leaf_count@[l] <= layout.indices@.len(),
{
    let mut l: usize = 0;
    while l < layout.leaf_begin.len()
        invariant
            l <= layout.leaf_begin@.len(),
            layout.leaf_count@.len() == layout.leaf_begin@.len(),
            first_range_fault(*layout, 0) == first_range_fault(*layout, l as int),
            forall|k: int|
                0 <= k < l ==> 0 <= #[trigger] layout.leaf_begin@[k] && 0 <= layout.leaf_count@[k]
                    && layout.leaf_begin@[k] + layout.leaf_count@[k] <= layout.indices@.len(),
        decreases layout.leaf_begin@.len() - l,
    {
        let begin: i32 = layout.leaf_begin[l];
        let count: i32 = layout.leaf_count[l];
        if begin < 0 || count < 0 {
            let mut detail: String = "add_leaf_values: leaf ".to_owned();
            text::push_decimal(&mut detail, l as u64);
            detail.append(" has a negative range");
            return Err(ComputeError::Runtime { detail });
        }
        let end: u64 = begin as u64 + count as u64;
        if end > layout.indices.len() as u64 {
            return Err(
                ComputeError::LengthMismatch { expected: end as usize, actual: layout.indices.len() },
            );
        }
        l += 1;
    }
    Ok(())
}

/// One more row and value add to that row alone.
proof fn row_values_extend<C>(rows: Seq<u32>, values: Seq<C>, r: u32, v: C, row: int)
    requires
        rows.len() == values.len(),
    ensures
        row_values(rows.push(r), values.push(v), row) == (if r == row {
            row_values(rows, values, row).push(v)
        } else {
            row_values(rows, values, row)
        }),
{
    assert(rows.push(r).drop_last() =~= rows);
    assert(values.push(v).drop_last() =~= values);
    assert(histogram::in_bin(rows.push(r), row).drop_last() =~= histogram::in_bin(rows, row));
}

/// One value per row of the first leaves.
proof fn one_value_per_row<C>(layout: LeafPartitionLayout, leaf_values: Seq<C>, n: int)
    requires
        0 <= n <= layout.leaf_begin@.len(),
        layout.leaf_count@.len() == layout.leaf_begin@.len(),
        forall|l: int|
            0 <= l < layout.leaf_begin@.len() ==> 0 <= #[trigger] layout.leaf_begin@[l] && 0
                <= layout.leaf_count@[l] && layout.leaf_begin@[l] + layout.leaf_count@[l] <= layout.indices@.len(),
    ensures
        scored_rows(layout, n).len() == scored_values(layout, leaf_values, n).len(),
    decreases n,
{
    if n > 0 {
        assert(0 <= layout.leaf_begin@[n - 1]);
        one_value_per_row(layout, leaf_values, n - 1);
    }
}

impl<C: Copy> ResidentScore<C> {
    /// The scores of `num_data` rows, all `zero`.
    pub fn new(num_data: usize, zero: C) -> (s: ResidentScore<C>)
        ensures
            s@ == histogram::filled(num_data as int, zero),
    {
        ResidentScore { score: histogram::zeroed(num_data, zero) }
    }

    /// The scores that the host holds.
    pub fn from_host_scores(scores: &[C]) -> (s: ResidentScore<C>)
        ensures
            s@ == scores@,
    {
        let mut score: Vec<C> = Vec::with_capacity(scores.len());
        let mut i: usize = 0;
        while i < scores.len()
            invariant
                i <= scores@.len(),
                score@ == scores@.take(i as int),
            decreases scores@.len() - i,
        {
            score.push(scores[i]);
            i += 1;
            assert(score@ =~= scores@.take(i as int));
        }
        assert(score@ =~= scores@);
        ResidentScore { score }
    }

    /// How many rows there are.
    pub fn num_data(&self) -> (n: usize)
        ensures
            n == self@.len(),
    {
        self.score.len()
    }

    /// Check that there is one label per row.
    pub fn check_labels(&self, labels: usize) -> (r: Result<(), ComputeError>)
        ensures
            error::fails_as(
                r,
                if labels != self@.len() {
                    Some(Fault::LengthMismatch { expected: self@.len(), actual: labels as nat })
                } else {
                    None
                },
            ),
    {
        if labels != self.score.len() {
            return Err(ComputeError::LengthMismatch { expected: self.score.len(), actual: labels });
        }
        Ok(())
    }

    /// Add each leaf's value to the scores of the leaf's rows. Nothing is added where the tree is
    /// refused.
    pub fn add_tree_on_device<F: Fn(C, C) -> C>(
        &mut self,
        add_to: &F,
        layout: &LeafPartitionLayout,
        leaf_values: &[C],
    ) -> (r: Result<(), ComputeError>)
        requires
            fold::is_total(*add_to),
            layout_rows_fit(*layout, old(self)@.len()),
        ensures
            error::fails_as(r, add_tree_fault(*layout, old(self)@.len(), leaf_values@.len())),
            r is Ok ==> is_scored(
                *add_to,
                old(self)@,
                scored_rows(*layout, layout.leaf_begin@.len() as int),
                scored_values(*layout, leaf_values@, layout.leaf_begin@.len() as int),
                final(self)@,
            ),
            r is Err ==> final(self)@ == old(self)@,
    {
        check_tree(layout, self.score.len(), leaf_values.len())?;
        let ghost before = self.score@;
        let mut l: usize = 0;
        while l < layout.leaf_begin.len()
            invariant
                l <= layout.leaf_begin@.len(),
                layout.leaf_begin@.len() <= leaf_values@.len(),
                fold::is_total(*add_to),
                layout_rows_fit(*layout, before.len()),
                forall|k: int|
                    0 <= k < layout.leaf_begin@.len() ==> 0 <= #[trigger] layout.leaf_begin@[k] && 0
                        <= layout.leaf_count@[k] && layout.leaf_begin@[k] + layout.leaf_count@[k]
                        <= layout.indices@.len(),
                is_scored(
                    *add_to,
                    before,
                    scored_rows(*layout, l as int),
                    scored_values(*layout, leaf_values@, l as int),
                    self.score@,
                ),
            decreases layout.leaf_begin@.len() - l,
        {
            assert(0 <= layout.leaf_begin@[l as int]);
            let begin: usize = layout.leaf_begin[l] as usize;
            let count: usize = layout.leaf_count[l] as usize;
            let len: usize = layout.indices.len();
            let value: C = leaf_values[l];
            let ghost rows = scored_rows(*layout, l as int);
            let ghost values = scored_values(*layout, leaf_values@, l as int);
            let ghost part = layout.indices@.subrange(begin as int, begin + count);
            proof {
                one_value_per_row(*layout, leaf_values@, l as int);
                assert(rows + part.take(0) =~= rows);
                assert(values + Seq::new(0nat, |k: int| value) =~= values);
            }
            let mut k: usize = 0;
            while k < count
                invariant
                    k <= count,
                    len == layout.indices@.len(),
                    begin + count <= len,
                    fold::is_total(*add_to),
                    layout_rows_fit(*layout, before.len()),
                    part == layout.indices@.subrange(begin as int, begin + count),
                    rows.len() == values.len(),
                    is_scored(
                        *add_to,
                        before,
                        rows + part.take(k as int),
                        values + Seq::new(k as nat, |i: int| value),
                        self.score@,
                    ),
                decreases count - k,
            {
                let ghost held = self.score@;
                let row: usize = layout.indices[begin + k] as usize;
                let old_score: C = self.score[row];
                let new_score: C = add_to(old_score, value);
                self.score.set(row, new_score);
                proof {
                    let rs = rows + part.take(k as int);
                    let vs = values + Seq::new(k as nat, |i: int| value);
                    assert(rows + part.take(k + 1) =~= rs.push(part[k as int]));
                    assert(values + Seq::new((k + 1) as nat, |i: int| value) =~= vs.push(value));
                    assert forall|r: int| 0 <= r < before.len() implies fold::folds_to(
                        *add_to,
                        before[r],
                        row_values(rs.push(part[k as int]), vs.push(value), r),
                        #[trigger] self.score@[r],
                    ) by {
                        row_values_extend(rs, vs, part[k as int], value, r);
                        assert(fold::folds_to(*add_to, before[r], row_values(rs, vs, r), held[r]));
                        if r == row {
                            fold::fold_extends(
                                *add_to,
                                before[r],
                                row_values(rs, vs, r),
                                old_score,
                                value,
                                new_score,
                            );
                        }
                    }
                }
                k += 1;
            }
            proof {
                assert(part.take(count as int) =~= part);
                assert(Seq::new(count as nat, |i: int| value) =~= Seq::new(
                    layout.leaf_count@[l as int] as nat,
                    |i: int| leaf_values@[l as int],
                ));
            }
            l += 1;
        }
        Ok(())
    }

    /// The scores of all rows.
    pub fn read_resident_score(&self) -> (scores: Vec<C>)
        ensures
            scores@ == self@,
    {
        let mut scores: Vec<C> = Vec::with_capacity(self.score.len());
        let mut i: usize = 0;
        while i < self.score.len()
            invariant
                i <= self.score@.len(),
                scores@ == self.score@.take(i as int),
            decreases self.score@.len() - i,
        {
            scores.push(self.score[i]);
            i += 1;
            assert(scores@ =~= self.score@.take(i as int));
        }
        assert(scores@ =~= self.score@);
        scores
    }
}

/// What one tree adds to each row: the leaf values of the row's leaves on top of `zero`.
pub fn add_prediction_to_score_on_device_resident<C: Copy, F: Fn(C, C) -> C>(
    add_to: &F,
    zero: C,
    layout: &LeafPartitionLayout,
    leaf_values: &[C],
) -> (r: Result<Vec<C>, ComputeError>)
    requires
        fold::is_total(*add_to),
        0 <= layout.num_data,
        layout_rows_fit(*layout, layout.num_data as nat),
    ensures
        error::fails_as(r, add_tree_fault(*layout, layout.num_data as nat, leaf_values@.len())),
        r matches Ok(delta) ==> is_scored(
            *add_to,
            histogram::filled(layout.num_data as int, zero),
            scored_rows(*layout, layout.leaf_begin@.len() as int),
            scored_values(*layout, leaf_values@, layout.leaf_begin@.len() as int),
            delta@,
        ),
{
    let mut mirror: ResidentScore<C> = ResidentScore::new(layout.num_data as usize, zero);
    mirror.add_tree_on_device(add_to, layout, leaf_values)?;
    Ok(mirror.read_resident_score())
}

/// The gradient and hessian sums of all rows, folded in row order.
pub fn root_grad_hess_fold<C: Copy, V: Copy, F: Fn(C, V) -> C>(
    add_to: &F,
    zero: C,
    gradients: &[V],
    hessians: &[V],
) -> (sums: (C, C))
    requires
        fold::is_total(*add_to),
    ensures
        ({
            let n = if gradients@.len() <= hessians@.len() {
                gradients@.len()
            } else {
                hessians@.len()
            };
            &&& fold::folds_to(*add_to, zero, gradients@.take(n as int), sums.0)
            &&& fold::folds_to(*add_to, zero, hessians@.take(n as int), sums.1)
        }),
{
    let n: usize = if gradients.len() <= hessians.len() {
        gradients.len()
    } else {
        hessians.len()
    };
    let sum_g: C = fold::ordered_fold(add_to, zero, &gradients[0..n]);
    let sum_h: C = fold::ordered_fold(add_to, zero, &hessians[0..n]);
    (sum_g, sum_h)
}

} // verus!
