//! Where a split sends a row.
use crate::error::ComputeError;
use crate::gain::SplitInfo;
use crate::kernels::data_partition;
use crate::kernels::data_partition::{NumericRoute, RouteFlags};
use crate::kernels::grow_driver;
use crate::kernels::grow_feature::GrowFeature;
use crate::kernels::grow_resident;
use crate::kernels::grow_resident::PartitionArm;
use crate::kernels::partition;
use crate::stable;
use vstd::prelude::*;

verus! {

/// Whether a bin number and every number of a route are non-negative as signed numbers.
pub open spec fn signed_range(r: NumericRoute, bin: u32) -> bool {
    &&& r.min_bin <= i32::MAX
    &&& r.max_bin <= i32::MAX
    &&& r.default_bin <= i32::MAX
    &&& r.most_freq_bin <= i32::MAX
    &&& r.threshold <= i32::MAX
    &&& bin <= i32::MAX
}

/// Whether a bin number stands in the column: rows of the most frequent bin are left out of it.
pub open spec fn is_stored(r: NumericRoute, bin: u32) -> bool {
    r.min_bin <= bin <= r.max_bin
}

/// The number that a stored bin has within its feature.
pub open spec fn own_bin(r: NumericRoute, bin: u32) -> int {
    bin - r.min_bin + (if r.most_freq_bin == 0 {
        1int
    } else {
        0
    })
}

/// Whether a row with this bin holds the missing value of its feature. That is the zero bin where
/// zero stands for a missing value, and the last bin where not-a-number does; where this bin is
/// the most frequent one, it is the rows without a stored bin.
pub open spec fn holds_missing(r: NumericRoute, bin: u32) -> bool {
    if r.missing_type == 1 {
        if r.default_bin == r.most_freq_bin {
            !is_stored(r, bin)
        } else {
            own_bin(r, bin) == r.default_bin
        }
    } else if r.missing_type == 2 {
        if r.most_freq_bin > 0 && r.min_bin + r.most_freq_bin == r.max_bin {
            !is_stored(r, bin)
        } else {
            bin == r.max_bin
        }
    } else {
        false
    }
}

/// A row that holds the missing value goes to the default side, whatever the threshold is.
pub proof fn missing_rows_take_the_default_side(r: NumericRoute, bin: u32)
    requires
        signed_range(r, bin),
        holds_missing(r, bin),
    ensures
        r.goes_left(bin) == r.default_left,
        forall|threshold: u32|
            threshold <= i32::MAX ==> #[trigger] (NumericRoute { threshold, ..r }).goes_left(bin)
                == r.default_left,
{
}

/// Every other row goes left exactly where its bin is at most the threshold: its own bin where one
/// is stored, the most frequent bin else. The default side plays no part.
pub proof fn other_rows_are_held_against_the_threshold(r: NumericRoute, bin: u32)
    requires
        signed_range(r, bin),
        !holds_missing(r, bin),
    ensures
        is_stored(r, bin) ==> (r.goes_left(bin) <==> own_bin(r, bin) <= r.threshold),
        !is_stored(r, bin) ==> (r.goes_left(bin) <==> r.most_freq_bin <= r.threshold),
{
}

/// The same of a row and the flags of a split: where the missing value is zero or not-a-number, a
/// row that holds it goes left exactly where the default side is the left one.
pub proof fn flagged_missing_rows_take_the_default_side(
    bin: int,
    min_bin: int,
    max_bin: int,
    default_bin: int,
    most_freq_bin: int,
    threshold: int,
    f: RouteFlags,
)
    requires
        f.min_is_max <==> min_bin == max_bin,
        ({
            ||| f.miss_is_zero && !f.mfb_is_zero && bin == min_bin + default_bin - (if most_freq_bin == 0 {
                1int
            } else {
                0
            })
            ||| f.miss_is_na && !f.mfb_is_na && bin == max_bin
            ||| (bin < min_bin || bin > max_bin) && f.miss_is_zero && f.mfb_is_zero
            ||| (bin < min_bin || bin > max_bin) && f.miss_is_na && f.mfb_is_na
        }),
    ensures
        data_partition::spec_route_left(bin, min_bin, max_bin, default_bin, most_freq_bin, threshold, f)
            == f.default_left,
{
}

/// Without a missing value no row looks at the default side, and a larger threshold never takes a
/// row from the left.
pub proof fn threshold_moves_rows_left(r: NumericRoute, bin: u32, higher: u32)
    requires
        signed_range(r, bin),
        r.threshold <= higher <= i32::MAX,
    ensures
        r.goes_left(bin) ==> (NumericRoute { threshold: higher, ..r }).goes_left(bin),
        !holds_missing(r, bin) ==> r.goes_left(bin) == (NumericRoute {
            default_left: !r.default_left,
            ..r
        }).goes_left(bin),
{
}

/// A split without missing values sends a stored bin left where the bin's own number is at most
/// the threshold, and all other rows where the most frequent bin is.
pub proof fn plain_rows_are_held_against_the_threshold(
    bin: int,
    min_bin: int,
    max_bin: int,
    threshold: int,
    most_freq_bin: int,
)
    ensures
        min_bin <= bin <= max_bin && most_freq_bin == 0 ==> (partition::plain_goes_left(
            bin,
            min_bin,
            max_bin,
            threshold,
            most_freq_bin,
        ) <==> bin - min_bin < threshold),
        min_bin <= bin <= max_bin && most_freq_bin != 0 ==> (partition::plain_goes_left(
            bin,
            min_bin,
            max_bin,
            threshold,
            most_freq_bin,
        ) <==> bin - min_bin <= threshold),
        !(min_bin <= bin <= max_bin) ==> (partition::plain_goes_left(
            bin,
            min_bin,
            max_bin,
            threshold,
            most_freq_bin,
        ) <==> most_freq_bin <= threshold),
{
}

/// The route of a feature's split holds the feature's bins, behind those that its offset leaves
/// out, with the split's threshold and default side.
pub proof fn feature_route_is_of_its_bins(f: GrowFeature, best: SplitInfo)
    requires
        f.min_bin + f.offset <= u32::MAX,
    ensures
        f.route(best).min_bin == (if f.offset >= 0 {
            f.min_bin + f.offset
        } else {
            f.min_bin as int
        }),
        f.route(best).max_bin == f.max_bin,
        f.route(best).default_bin == f.default_bin,
        f.route(best).most_freq_bin == f.most_freq_bin,
        f.route(best).threshold == best.threshold,
        f.route(best).default_left == best.default_left,
        f.route(best).missing_type == 0 <==> f.missing_type is NoMissing,
        f.route(best).missing_type == 1 <==> f.missing_type is Zero,
        f.route(best).missing_type == 2 <==> f.missing_type is NaN,
{
}

/// The bins that a leaf's rows are routed by are those of the feature's column, as long as the
/// column holds bins of the feature.
pub proof fn leaf_rows_keep_their_bins(f: GrowFeature, rows: Seq<u32>, i: int)
    requires
        0 <= i < rows.len(),
        f.bins@[rows[i] as int] < f.num_bin,
    ensures
        grow_driver::leaf_bins(f, rows)[i] == f.bins@[rows[i] as int],
{
    assert(f.bins@[rows[i] as int] as int % crate::bin_column::column_capacity(f.num_bin)
        == f.bins@[rows[i] as int]) by (nonlinear_arith)
        requires
            0 <= f.bins@[rows[i] as int] < f.num_bin <= crate::bin_column::column_capacity(f.num_bin),
    ;
}

/// The number of marks on a side is how often the mark occurs.
pub proof fn tally_is_the_count(marks: Seq<bool>, want: bool)
    ensures
        stable::tally(marks, want) == marks.to_multiset().count(want),
    decreases marks.len(),
{
    broadcast use vstd::seq_lib::group_to_multiset_ensures;

    if marks.len() > 0 {
        tally_is_the_count(marks.drop_last(), want);
        assert(marks =~= marks.drop_last().push(marks.last()));
    } else {
        assert(marks =~= Seq::<bool>::empty());
    }
}

/// A partition sets the marked items first, as many as there are marks, and keeps the order of two
/// items on one side.
pub proof fn marked_items_come_first<T>(items: Seq<T>, marks: Seq<bool>, i: int, j: int) -> (at: (int, int))
    requires
        items.len() == marks.len(),
        0 <= i < j < items.len(),
    ensures
        0 <= at.0 < items.len(),
        0 <= at.1 < items.len(),
        at.0 != at.1,
        stable::stable_partition(items, marks)[at.0] == items[i],
        stable::stable_partition(items, marks)[at.1] == items[j],
        at.0 < marks.to_multiset().count(true) <==> marks[i],
        at.1 < marks.to_multiset().count(true) <==> marks[j],
        marks[i] == marks[j] ==> at.0 < at.1,
{
    tally_is_the_count(marks, true);
    stable::destination_holds_item(items, marks, i);
    stable::destination_holds_item(items, marks, j);
    stable::destinations_are_distinct(marks, i, j);
    destination_is_on_its_side(marks, i);
    destination_is_on_its_side(marks, j);
    (stable::destination(marks, i), stable::destination(marks, j))
}

proof fn destination_is_on_its_side(marks: Seq<bool>, i: int)
    requires
        0 <= i < marks.len(),
    ensures
        stable::destination(marks, i) < stable::tally(marks, true) <==> marks[i],
{
    assert(marks.take(marks.len() as int) =~= marks);
    stable::tally_extends(marks, i, true);
    stable::tally_monotone(marks, i + 1, marks.len() as int, true);
    stable::prefix_tallies_sum(marks, i);
}

/// A side has as many items as marks, and every item that is marked for it.
pub proof fn side_holds_its_rows<T>(items: Seq<T>, marks: Seq<bool>, want: bool)
    requires
        items.len() == marks.len(),
    ensures
        stable::chosen(items, marks, want).len() == marks.to_multiset().count(want),
        forall|i: int|
            0 <= i < items.len() && #[trigger] marks[i] == want ==> stable::chosen(items, marks, want).contains(
                items[i],
            ),
{
    tally_is_the_count(marks, want);
    stable::chosen_len(items, marks, want);
    assert forall|i: int| 0 <= i < items.len() && #[trigger] marks[i] == want implies stable::chosen(
        items,
        marks,
        want,
    ).contains(items[i]) by {
        stable::chosen_at(items, marks, i, want);
    }
}

/// A partition of rows by a numeric split holds first the rows whose bin goes left, and then the
/// others; the split point is where the second part starts.
pub proof fn partition_sets_left_rows_first(
    r: Result<(Vec<u32>, usize), ComputeError>,
    rows: Seq<u32>,
    bins: Seq<u32>,
    route: NumericRoute,
    p: int,
) -> (i: int)
    requires
        r is Ok,
        rows.len() == bins.len(),
        data_partition::is_partition(r, rows, route.marks(bins)),
        0 <= p < rows.len(),
    ensures
        r->Ok_0.0@.len() == rows.len(),
        r->Ok_0.0@.to_multiset() == rows.to_multiset(),
        0 <= r->Ok_0.1 <= rows.len(),
        0 <= i < rows.len(),
        r->Ok_0.0@[p] == rows[i],
        p < r->Ok_0.1 <==> route.goes_left(bins[i]),
{
    let marks = route.marks(bins);
    let i = stable::destination_is_reached(marks, p);
    stable::destination_holds_item(rows, marks, i);
    destination_is_on_its_side(marks, i);
    stable::partition_is_permutation(rows, marks);
    stable::tallies_sum(marks);
    i
}

/// A span of rows that is partitioned in place holds first the rows whose bin goes left; the rows
/// around the span stay where they are.
pub proof fn span_sets_left_rows_first(
    before: Seq<u32>,
    after: Seq<u32>,
    begin: int,
    rows: Seq<u32>,
    bins: Seq<u32>,
    route: NumericRoute,
    p: int,
) -> (i: int)
    requires
        0 <= begin,
        begin + rows.len() <= before.len(),
        rows.len() == bins.len(),
        partition::span_partitioned(before, after, begin, rows, route.marks(bins)),
        0 <= p < rows.len(),
    ensures
        after.len() == before.len(),
        0 <= i < rows.len(),
        after[begin + p] == rows[i],
        p < route.marks(bins).to_multiset().count(true) <==> route.goes_left(bins[i]),
        forall|k: int|
            0 <= k < before.len() && (k < begin || k >= begin + rows.len()) ==> #[trigger] after[k] == before[k],
{
    let marks = route.marks(bins);
    let i = stable::destination_is_reached(marks, p);
    stable::destination_holds_item(rows, marks, i);
    destination_is_on_its_side(marks, i);
    tally_is_the_count(marks, true);
    assert(after.subrange(begin, begin + rows.len())[p] == after[begin + p]);
    i
}

/// A bit of a bitset is the binary digit of its word.
pub proof fn bitset_position_is_a_binary_digit(bits: Seq<u32>, pos: int)
    requires
        0 <= pos < 32 * bits.len(),
    ensures
        data_partition::in_bitset(bits, pos) <==> (bits[pos / 32] as nat / vstd::arithmetic::power2::pow2(
            (pos % 32) as nat,
        )) % 2 == 1,
{
    let word = bits[pos / 32];
    let by = (pos % 32) as u32;
    vstd::bits::lemma_u32_shr_is_div(word, by);
    let shifted = word >> by;
    assert(shifted & 1u32 == shifted % 2) by (bit_vector);
}

/// No position past the last word is in a bitset.
pub proof fn bitset_ends_with_its_words(bits: Seq<u32>, pos: int)
    requires
        pos < 0 || pos >= 32 * bits.len(),
    ensures
        !data_partition::in_bitset(bits, pos),
{
}

/// A categorical split sends a row with a stored bin left exactly where the bin's own number is in
/// the bitset, and a row without one exactly where the most frequent bin is, bin 0 left out.
pub proof fn categories_in_the_bitset_go_left(
    bins: Seq<u32>,
    min_bin: u32,
    max_bin: u32,
    most_freq_bin: u32,
    bits: Seq<u32>,
    i: int,
)
    requires
        0 <= i < bins.len(),
        bins[i] <= i32::MAX,
        min_bin <= i32::MAX,
        max_bin <= i32::MAX,
        most_freq_bin <= i32::MAX,
    ensures
        data_partition::categorical_marks(bins, min_bin, max_bin, most_freq_bin, bits).len() == bins.len(),
        min_bin <= bins[i] <= max_bin && most_freq_bin == 0 ==> data_partition::categorical_marks(
            bins,
            min_bin,
            max_bin,
            most_freq_bin,
            bits,
        )[i] == data_partition::in_bitset(bits, bins[i] - min_bin + 1),
        min_bin <= bins[i] <= max_bin && most_freq_bin > 0 ==> data_partition::categorical_marks(
            bins,
            min_bin,
            max_bin,
            most_freq_bin,
            bits,
        )[i] == data_partition::in_bitset(bits, bins[i] - min_bin),
        !(min_bin <= bins[i] <= max_bin) && most_freq_bin > 0 ==> data_partition::categorical_marks(
            bins,
            min_bin,
            max_bin,
            most_freq_bin,
            bits,
        )[i] == data_partition::in_bitset(bits, most_freq_bin as int),
        !(min_bin <= bins[i] <= max_bin) && most_freq_bin == 0 ==> !data_partition::categorical_marks(
            bins,
            min_bin,
            max_bin,
            most_freq_bin,
            bits,
        )[i],
{
}

/// A numeric split of a leaf marks each row by the row's own bin.
pub proof fn leaf_rows_are_marked_by_their_bins(
    f: GrowFeature,
    best: SplitInfo,
    rows: Seq<u32>,
    bitset: Seq<u32>,
    arm: PartitionArm,
    i: int,
)
    requires
        !f.is_categorical(),
        0 <= i < rows.len(),
        f.bins@[rows[i] as int] < f.num_bin,
    ensures
        grow_driver::split_marks(f, best, rows, bitset).len() == rows.len(),
        grow_driver::split_marks(f, best, rows, bitset)[i] == f.route(best).goes_left(
            f.bins@[rows[i] as int],
        ),
        grow_resident::arm_marks(arm, f, best, rows).len() == rows.len(),
        grow_resident::arm_marks(arm, f, best, rows)[i] == f.route(best).goes_left(f.bins@[rows[i] as int]),
{
    leaf_rows_keep_their_bins(f, rows, i);
}

/// The leaf with fewer rows is the smaller one; where both have as many, it is the right one.
pub proof fn smaller_leaf_has_fewer_rows(left_leaf: i32, left_num: i32, right_leaf: i32, right_num: i32)
    ensures
        left_num < right_num ==> data_partition::smaller_then_larger(left_leaf, left_num, right_leaf, right_num).0
            == left_leaf,
        left_num >= right_num ==> data_partition::smaller_then_larger(
            left_leaf,
            left_num,
            right_leaf,
            right_num,
        ).0 == right_leaf,
        left_num >= right_num ==> data_partition::smaller_then_larger(
            left_leaf,
            left_num,
            right_leaf,
            right_num,
        ).1 == left_leaf,
        left_num < right_num ==> data_partition::smaller_then_larger(left_leaf, left_num, right_leaf, right_num).1
            == right_leaf,
{
}

} // verus!
