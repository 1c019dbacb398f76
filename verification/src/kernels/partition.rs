//! Partitions by a plain threshold, the child ranges of a split, and the partition of a
//! resident row permutation in place.
use crate::bin_column::BinColumn;
use crate::error;
use crate::error::{ComputeError, Fault};
use crate::kernels::data_partition;
use crate::kernels::data_partition::{NumericRoute, RouteFlags};
use crate::stable;
use crate::text;
use vstd::prelude::*;

verus! {

/// The row ids `0, 1, ..., n - 1`.
pub open spec fn row_ids(n: nat) -> Seq<u32> {
    Seq::new(n, |i: int| i as u32)
}

/// Whether a row goes left under a split without missing values: a stored bin by the
/// threshold, any other by the most frequent bin.
pub open spec fn plain_goes_left(bin: int, min_bin: int, max_bin: int, threshold: int, most_freq_bin: int) -> bool {
    if bin < min_bin || bin > max_bin {
        most_freq_bin <= threshold
    } else {
        bin <= threshold + min_bin - data_partition::mfb_shift(most_freq_bin)
    }
}

/// The left marks of a sequence of bins under a split without missing values.
pub open spec fn plain_marks(bins: Seq<u32>, min_bin: u32, max_bin: u32, threshold: u32, most_freq_bin: u32) -> Seq<
    bool,
> {
    Seq::new(
        bins.len(),
        |i: int|
            plain_goes_left(
                bins[i] as i32 as int,
                min_bin as i32 as int,
                max_bin as i32 as int,
                threshold as i32 as int,
                most_freq_bin as i32 as int,
            ),
    )
}

/// The threshold of a plain route is in range.
pub open spec fn plain_sum_fits(min_bin: i32, threshold: i32, most_freq_bin: i32) -> bool {
    &&& i32::MIN <= threshold + min_bin <= i32::MAX
    &&& i32::MIN <= threshold + min_bin - data_partition::mfb_shift(most_freq_bin as int)
}

/// The fault of a partition of all rows of a column.
pub open spec fn native_fault(bins: Seq<u32>, num_bin: u32, threshold: u32) -> Option<Fault> {
    data_partition::partition_fault(bins, num_bin, threshold, bins.len())
}

/// A split without missing values is the numeric split whose missing code is 0, whatever the
/// default direction and the zero bin are.
pub proof fn plain_route_is_numeric_without_missing(
    bin: u32,
    min_bin: u32,
    max_bin: u32,
    default_bin: u32,
    most_freq_bin: u32,
    default_left: bool,
    threshold: u32,
)
    ensures
        plain_goes_left(
            bin as i32 as int,
            min_bin as i32 as int,
            max_bin as i32 as int,
            threshold as i32 as int,
            most_freq_bin as i32 as int,
        ) == (NumericRoute {
            min_bin,
            max_bin,
            default_bin,
            most_freq_bin,
            missing_type: 0,
            default_left,
            threshold,
        }).goes_left(bin),
{
}

/// The per-row route by a plain threshold: 1 for right, 0 for left.
pub fn data_partition_kernel(
    bin: u32,
    min_bin: i32,
    max_bin: i32,
    threshold: i32,
    most_freq_bin: i32,
) -> (route: u32)
    requires
        plain_sum_fits(min_bin, threshold, most_freq_bin),
    ensures
        route == (if plain_goes_left(
            bin as i32 as int,
            min_bin as int,
            max_bin as int,
            threshold as int,
            most_freq_bin as int,
        ) { 0u32 } else { 1u32 }),
{
    let mut th: i32 = threshold + min_bin;
    if most_freq_bin == 0 {
        th = th - 1;
    }
    let default_to_right = most_freq_bin > threshold;
    let bin: i32 = bin as i32;
    let is_default = bin < min_bin || bin > max_bin;
    let gt = bin > th;
    let go_right = if is_default {
        default_to_right
    } else {
        gt
    };
    if go_right {
        1
    } else {
        0
    }
}

/// The stable partition of all rows of a column by a plain threshold: the left row ids, then
/// the right ones, and how many are left.
pub fn data_partition_cpu_native(
    bins: &[u32],
    num_bin: u32,
    min_bin: u32,
    max_bin: u32,
    threshold: u32,
    most_freq_bin: u32,
) -> (r: Result<(Vec<u32>, usize), ComputeError>)
    requires
        native_fault(bins@, num_bin, threshold) is None && bins@.len() > 0 ==> plain_sum_fits(
            min_bin as i32,
            threshold as i32,
            most_freq_bin as i32,
        ),
    ensures
        error::fails_as(r, native_fault(bins@, num_bin, threshold)),
        data_partition::is_partition(
            r,
            row_ids(bins@.len()),
            plain_marks(bins@, min_bin, max_bin, threshold, most_freq_bin),
        ),
{
    data_partition::check_threshold(num_bin, threshold)?;
    let n: usize = bins.len();
    let mut row: usize = 0;
    while row < n
        invariant
            row <= n,
            n == bins@.len(),
            native_fault(bins@, num_bin, threshold) == data_partition::first_bad_bin(bins@, num_bin, 0),
            data_partition::first_bad_bin(bins@, num_bin, 0) == data_partition::first_bad_bin(
                bins@,
                num_bin,
                row as int,
            ),
        decreases n - row,
    {
        let bin: u32 = bins[row];
        if bin >= num_bin {
            return Err(ComputeError::BinIndexOutOfRange { row, bin, num_bin });
        }
        row += 1;
    }
    let ghost marks = plain_marks(bins@, min_bin, max_bin, threshold, most_freq_bin);
    let mut route: Vec<u32> = Vec::with_capacity(n);
    let mut i: usize = 0;
    while i < n
        invariant
            i <= n,
            n == bins@.len(),
            n > 0 ==> plain_sum_fits(min_bin as i32, threshold as i32, most_freq_bin as i32),
            marks == plain_marks(bins@, min_bin, max_bin, threshold, most_freq_bin),
            route@.len() == i,
            forall|k: int| 0 <= k < i ==> #[trigger] route@[k] == (if marks[k] { 0u32 } else { 1u32 }),
        decreases n - i,
    {
        route.push(
            data_partition_kernel(
                bins[i],
                min_bin as i32,
                max_bin as i32,
                threshold as i32,
                most_freq_bin as i32,
            ),
        );
        i += 1;
    }
    assert(left_marks(route@, n as int) =~= marks);
    Ok(gather_route(route.as_slice(), n))
}

/// The left marks that the first `n` routes stand for.
pub open spec fn left_marks(route: Seq<u32>, n: int) -> Seq<bool> {
    Seq::new(n as nat, |i: int| route[i] == 0)
}

/// The row ids of the first `n` rows, those with route 0 first, each side in order, and how
/// many those are.
pub fn gather_route(route: &[u32], n: usize) -> (r: (Vec<u32>, usize))
    requires
        n <= route@.len(),
    ensures
        r.0@ == stable::stable_partition(row_ids(n as nat), left_marks(route@, n as int)),
        r.1 == stable::tally(left_marks(route@, n as int), true),
{
    let ghost ids = row_ids(n as nat);
    let ghost marks = left_marks(route@, n as int);
    let mut reordered: Vec<u32> = Vec::with_capacity(n);
    let mut i: usize = 0;
    while i < n
        invariant
            i <= n,
            n <= route@.len(),
            ids == row_ids(n as nat),
            marks == left_marks(route@, n as int),
            reordered@ == stable::chosen(ids.take(i as int), marks.take(i as int), true),
        decreases n - i,
    {
        proof {
            stable::chosen_extends(ids, marks, i as int, true);
        }
        if route[i] == 0 {
            reordered.push(i as u32);
        }
        i += 1;
    }
    assert(ids.take(n as int) =~= ids);
    assert(marks.take(n as int) =~= marks);
    let split_point: usize = reordered.len();
    let ghost left = reordered@;
    let mut i: usize = 0;
    while i < n
        invariant
            i <= n,
            n <= route@.len(),
            ids == row_ids(n as nat),
            marks == left_marks(route@, n as int),
            reordered@ == left + stable::chosen(ids.take(i as int), marks.take(i as int), false),
        decreases n - i,
    {
        proof {
            stable::chosen_extends(ids, marks, i as int, false);
        }
        if route[i] != 0 {
            reordered.push(i as u32);
        }
        i += 1;
        assert(reordered@ =~= left + stable::chosen(ids.take(i as int), marks.take(i as int), false));
    }
    proof {
        stable::chosen_len(ids, marks, true);
    }
    (reordered, split_point)
}

/// The partition of all rows of a column by a plain threshold, each bin read at its stored
/// width. It agrees with [`data_partition_cpu_native`] on the widened bins.
pub fn data_partition_native_on(
    bins: &BinColumn,
    num_bin: u32,
    min_bin: u32,
    max_bin: u32,
    threshold: u32,
    most_freq_bin: u32,
) -> (r: Result<(Vec<u32>, usize), ComputeError>)
    requires
        native_fault(bins@, num_bin, threshold) is None && bins@.len() > 0 ==> plain_sum_fits(
            min_bin as i32,
            threshold as i32,
            most_freq_bin as i32,
        ),
    ensures
        error::fails_as(r, native_fault(bins@, num_bin, threshold)),
        data_partition::is_partition(
            r,
            row_ids(bins@.len()),
            plain_marks(bins@, min_bin, max_bin, threshold, most_freq_bin),
        ),
{
    data_partition::check_threshold(num_bin, threshold)?;
    data_partition::check_bins(bins, num_bin)?;
    let n: usize = bins.len();
    let ghost marks = plain_marks(bins@, min_bin, max_bin, threshold, most_freq_bin);
    let mut route: Vec<u32> = vec![0u32; n];
    let mut i: usize = 0;
    while i < n
        invariant
            i <= n,
            n == bins@.len(),
            n > 0 ==> plain_sum_fits(min_bin as i32, threshold as i32, most_freq_bin as i32),
            marks == plain_marks(bins@, min_bin, max_bin, threshold, most_freq_bin),
            route@.len() == n,
            forall|k: int| 0 <= k < i ==> #[trigger] route@[k] == (if marks[k] { 0u32 } else { 1u32 }),
        decreases n - i,
    {
        route.set(
            i,
            data_partition_kernel(
                bins.bin(i),
                min_bin as i32,
                max_bin as i32,
                threshold as i32,
                most_freq_bin as i32,
            ),
        );
        i += 1;
    }
    assert(left_marks(route@, n as int) =~= marks);
    Ok(gather_route(route.as_slice(), n))
}

/// Where the two children of a split lie in the row permutation.
#[derive(Clone, Copy, Debug, PartialEq, Eq, Structural)]
pub struct ChildRanges {
    pub left_start: i32,
    pub left_end: i32,
    pub left_count: i32,
    pub right_start: i32,
    pub right_end: i32,
    pub right_count: i32,
}

/// How many integers the children of one leaf take.
pub const LEAF_SPLIT_STRIDE: usize = 6;

/// The children of a parent at `p_begin` with `p_count` rows, of which `split` are left rows,
/// are `ranges`.
pub open spec fn ranges_split_parent(ranges: ChildRanges, p_begin: int, p_count: int, split: int) -> bool {
    &&& ranges.left_start == p_begin
    &&& ranges.left_end == p_begin + split
    &&& ranges.left_count == split
    &&& ranges.right_start == p_begin + split
    &&& ranges.right_end == p_begin + p_count
    &&& ranges.right_count == p_count - split
}

/// The child ranges tile the parent: they are adjacent, span it exactly, and their counts
/// add up to the parent's.
pub proof fn child_ranges_tile_parent(ranges: ChildRanges, p_begin: int, p_count: int, split: int)
    requires
        ranges_split_parent(ranges, p_begin, p_count, split),
        0 <= split <= p_count,
    ensures
        ranges.left_start == p_begin,
        ranges.left_end == ranges.right_start,
        ranges.right_end == p_begin + p_count,
        ranges.left_count + ranges.right_count == p_count,
        ranges.left_end - ranges.left_start == ranges.left_count,
        ranges.right_end - ranges.right_start == ranges.right_count,
        ranges.left_count >= 0,
        ranges.right_count >= 0,
{
}

/// The sums of the child ranges of a parent with up to `rows` left rows are in range.
pub open spec fn range_sums_fit(p_begin: i32, p_count: i32, rows: nat) -> bool {
    &&& rows <= i32::MAX
    &&& p_begin + rows <= i32::MAX
    &&& i32::MIN <= p_begin + p_count <= i32::MAX
    &&& i32::MIN <= p_count - rows
}

/// The child ranges of each leaf, six integers per leaf.
#[derive(Debug)]
pub struct DeviceLeafSplits {
    ranges: Vec<i32>,
    num_leaves: usize,
}

impl View for DeviceLeafSplits {
    type V = Seq<ChildRanges>;

    closed spec fn view(&self) -> Seq<ChildRanges> {
        Seq::new(
            self.num_leaves as nat,
            |leaf: int|
                ChildRanges {
                    left_start: self.ranges@[6 * leaf],
                    left_end: self.ranges@[6 * leaf + 1],
                    left_count: self.ranges@[6 * leaf + 2],
                    right_start: self.ranges@[6 * leaf + 3],
                    right_end: self.ranges@[6 * leaf + 4],
                    right_count: self.ranges@[6 * leaf + 5],
                },
        )
    }
}

impl DeviceLeafSplits {
    /// The table has six integers per leaf.
    pub closed spec fn wf(&self) -> bool {
        self.ranges@.len() == 6 * self.num_leaves
    }

    /// A table of `num_leaves` leaves whose ranges are all zero.
    pub fn new(num_leaves: usize) -> (r: Result<DeviceLeafSplits, ComputeError>)
        requires
            6 * num_leaves <= usize::MAX,
        ensures
            error::fails_as(
                r,
                if num_leaves == 0 {
                    Some(Fault::Runtime("DeviceLeafSplits::new: num_leaves must be >= 1"@))
                } else {
                    None
                },
            ),
            r matches Ok(s) ==> s.wf() && s@ == Seq::new(
                num_leaves as nat,
                |leaf: int|
                    ChildRanges {
                        left_start: 0,
                        left_end: 0,
                        left_count: 0,
                        right_start: 0,
                        right_end: 0,
                        right_count: 0,
                    },
            ),
    {
        if num_leaves == 0 {
            return Err(error::runtime_error("DeviceLeafSplits::new: num_leaves must be >= 1"));
        }
        Ok(DeviceLeafSplits { ranges: vec![0i32; LEAF_SPLIT_STRIDE * num_leaves], num_leaves })
    }

    /// The number of leaves.
    pub fn num_leaves(&self) -> (n: usize)
        ensures
            n == self@.len(),
    {
        self.num_leaves
    }

    /// The whole table, six integers per leaf.
    pub fn ranges_handle(&self) -> (ranges: &Vec<i32>)
        requires
            self.wf(),
        ensures
            ranges@.len() == 6 * self@.len(),
            forall|leaf: int|
                0 <= leaf < self@.len() ==> #[trigger] self@[leaf] == (ChildRanges {
                    left_start: ranges@[6 * leaf],
                    left_end: ranges@[6 * leaf + 1],
                    left_count: ranges@[6 * leaf + 2],
                    right_start: ranges@[6 * leaf + 3],
                    right_end: ranges@[6 * leaf + 4],
                    right_count: ranges@[6 * leaf + 5],
                }),
    {
        &self.ranges
    }

    /// The child ranges of one leaf.
    pub fn read_leaf(&self, leaf_id: usize) -> (ranges: ChildRanges)
        requires
            self.wf(),
            leaf_id < self@.len(),
        ensures
            ranges == self@[leaf_id as int],
    {
        assert(self.ranges@.len() == self.ranges.len());
        let b: usize = LEAF_SPLIT_STRIDE * leaf_id;
        ChildRanges {
            left_start: self.ranges[b],
            left_end: self.ranges[b + 1],
            left_count: self.ranges[b + 2],
            right_start: self.ranges[b + 3],
            right_end: self.ranges[b + 4],
            right_count: self.ranges[b + 5],
        }
    }

    /// Store the child ranges of one leaf.
    pub fn write_child_ranges(&mut self, leaf_id: usize, split_point: i32, p_begin: i32, p_count: i32)
        requires
            old(self).wf(),
            leaf_id < old(self)@.len(),
            i32::MIN <= p_begin + split_point <= i32::MAX,
            i32::MIN <= p_begin + p_count <= i32::MAX,
            i32::MIN <= p_count - split_point <= i32::MAX,
        ensures
            final(self).wf(),
            final(self)@.len() == old(self)@.len(),
            ranges_split_parent(
                final(self)@[leaf_id as int],
                p_begin as int,
                p_count as int,
                split_point as int,
            ),
            forall|leaf: int|
                0 <= leaf < old(self)@.len() && leaf != leaf_id ==> #[trigger] final(self)@[leaf] == old(self)@[leaf],
    {
        assert(self.ranges@.len() == self.ranges.len());
        let base: usize = LEAF_SPLIT_STRIDE * leaf_id;
        self.ranges.set(base, p_begin);
        self.ranges.set(base + 1, p_begin + split_point);
        self.ranges.set(base + 2, split_point);
        self.ranges.set(base + 3, p_begin + split_point);
        self.ranges.set(base + 4, p_begin + p_count);
        self.ranges.set(base + 5, p_count - split_point);
    }
}

/// The fault of a partition that stores child ranges for leaf `leaf_id` of `num_leaves`.
pub open spec fn child_ranges_fault(
    bins: Seq<u32>,
    num_bin: u32,
    threshold: u32,
    rows: nat,
    leaf_id: usize,
    num_leaves: nat,
) -> Option<Fault> {
    if leaf_id >= num_leaves {
        Some(
            Fault::Runtime(
                "partition_child_ranges_device: leaf_id "@ + text::decimal(leaf_id as nat)
                    + " >= num_leaves "@ + text::decimal(num_leaves),
            ),
        )
    } else {
        data_partition::partition_fault(bins, num_bin, threshold, rows)
    }
}

/// Partition a leaf's rows by a numeric split and store where its children lie. Returns the
/// reordered rows.
pub fn partition_child_ranges_device(
    bins: &BinColumn,
    data_indices: &[u32],
    num_bin: u32,
    min_bin: u32,
    max_bin: u32,
    default_bin: u32,
    most_freq_bin: u32,
    missing_type: u8,
    default_left: bool,
    threshold: u32,
    leaf_splits: &mut DeviceLeafSplits,
    leaf_id: usize,
    p_begin: i32,
    p_count: i32,
) -> (r: Result<Vec<u32>, ComputeError>)
    requires
        old(leaf_splits).wf(),
        data_indices@.len() <= u32::MAX,
        child_ranges_fault(
            bins@,
            num_bin,
            threshold,
            data_indices@.len(),
            leaf_id,
            old(leaf_splits)@.len(),
        ) is None ==> range_sums_fit(p_begin, p_count, data_indices@.len()) && (
        data_indices@.len() > 0 ==> (NumericRoute {
            min_bin,
            max_bin,
            default_bin,
            most_freq_bin,
            missing_type,
            default_left,
            threshold,
        }).sums_fit(data_indices@.len())),
    ensures
        final(leaf_splits).wf(),
        final(leaf_splits)@.len() == old(leaf_splits)@.len(),
        error::fails_as(
            r,
            child_ranges_fault(
                bins@,
                num_bin,
                threshold,
                data_indices@.len(),
                leaf_id,
                old(leaf_splits)@.len(),
            ),
        ),
        r is Err ==> final(leaf_splits)@ == old(leaf_splits)@,
        r matches Ok(order) ==> {
            let marks = (NumericRoute {
                min_bin,
                max_bin,
                default_bin,
                most_freq_bin,
                missing_type,
                default_left,
                threshold,
            }).marks(bins@);
            &&& order@ == stable::stable_partition(data_indices@, marks)
            &&& ranges_split_parent(
                final(leaf_splits)@[leaf_id as int],
                p_begin as int,
                p_count as int,
                stable::tally(marks, true) as int,
            )
            &&& forall|leaf: int|
                0 <= leaf < old(leaf_splits)@.len() && leaf != leaf_id ==> #[trigger] final(leaf_splits)@[leaf] == old(leaf_splits)@[leaf]
        },
{
    if leaf_id >= leaf_splits.num_leaves() {
        let mut detail: String = "partition_child_ranges_device: leaf_id ".to_owned();
        text::push_decimal(&mut detail, leaf_id as u64);
        detail.append(" >= num_leaves ");
        text::push_decimal(&mut detail, leaf_splits.num_leaves() as u64);
        return Err(ComputeError::Runtime { detail });
    }
    let (reordered, split_point) = data_partition::partition_on_device(
        bins,
        data_indices,
        num_bin,
        min_bin,
        max_bin,
        default_bin,
        most_freq_bin,
        missing_type,
        default_left,
        threshold,
    )?;
    proof {
        let marks = (NumericRoute {
            min_bin,
            max_bin,
            default_bin,
            most_freq_bin,
            missing_type,
            default_left,
            threshold,
        }).marks(bins@);
        stable::tallies_sum(marks);
    }
    leaf_splits.write_child_ranges(leaf_id, split_point as i32, p_begin, p_count);
    Ok(reordered)
}

/// The most scan blocks that one partition uses.
pub const MAX_SCAN_BLOCKS: usize = 1024;

/// Where block `b` of size `bs` starts in `n` rows, cut off at the end.
pub open spec fn block_cut(b: int, bs: int, n: int) -> int {
    if b * bs < n {
        b * bs
    } else {
        n
    }
}

/// How many left rows there are before row `i`.
pub open spec fn rank_before(marks: Seq<bool>, i: int) -> nat {
    stable::tally(marks.take(i), true)
}

proof fn block_cut_step(b: int, bs: int, n: int)
    requires
        0 <= b,
        0 < bs,
        b * bs < n,
    ensures
        (b + 1) * bs == b * bs + bs,
        block_cut(b, bs, n) == b * bs,
        0 <= b * bs,
        block_cut(b, bs, n) < block_cut(b + 1, bs, n),
        block_cut(b + 1, bs, n) == (if b * bs + bs < n {
            b * bs + bs
        } else {
            n
        }),
{
    assert((b + 1) * bs == b * bs + bs) by (nonlinear_arith);
    assert(0 <= b * bs) by (nonlinear_arith)
        requires
            0 <= b,
            0 < bs,
    ;
}

/// What the mark-and-scan stage leaves behind for the rows of one leaf: the rows, their
/// marks, each row's rank within its block, and each block's number of left rows.
pub open spec fn block_scanned(
    snap: Seq<u32>,
    to_left: Seq<u32>,
    local_excl: Seq<u32>,
    rows: Seq<u32>,
    marks: Seq<bool>,
    bs: int,
    upto: int,
) -> bool {
    &&& forall|i: int| 0 <= i < upto ==> #[trigger] snap[i] == rows[i]
    &&& forall|i: int| 0 <= i < upto ==> #[trigger] to_left[i] == (if marks[i] { 1u32 } else { 0u32 })
    &&& forall|i: int|
        0 <= i < upto ==> #[trigger] local_excl[i] == rank_before(marks, i) - rank_before(
            marks,
            block_cut(i / bs, bs, marks.len() as int),
        )
}

/// The number of left rows of each block.
pub open spec fn totals_of_blocks(totals: Seq<u32>, marks: Seq<bool>, bs: int, upto: int) -> bool {
    forall|b: int|
        0 <= b < upto ==> #[trigger] totals[b] == rank_before(
            marks,
            block_cut(b + 1, bs, marks.len() as int),
        ) - rank_before(marks, block_cut(b, bs, marks.len() as int))
}

/// The number of left rows before each block.
pub open spec fn bases_of_blocks(totals: Seq<u32>, marks: Seq<bool>, bs: int, upto: int) -> bool {
    forall|b: int|
        0 <= b < upto ==> #[trigger] totals[b] == rank_before(
            marks,
            block_cut(b, bs, marks.len() as int),
        )
}

/// The bins of the given rows in the column that starts at `col_off`.
pub open spec fn column_bins(bins: Seq<u32>, col_off: int, rows: Seq<u32>) -> Seq<u32> {
    Seq::new(rows.len(), |i: int| bins[col_off + rows[i]])
}

/// First stage: mark the rows of a leaf, read through the permutation, and scan each block.
fn mark_block_scan(
    bins: &BinColumn,
    perm: &Vec<u32>,
    snap: &mut Vec<u32>,
    to_left: &mut Vec<u32>,
    local_excl: &mut Vec<u32>,
    block_totals: &mut Vec<u32>,
    col_off: usize,
    p_begin: usize,
    n: usize,
    block_size: usize,
    num_blocks: usize,
    route: NumericRoute,
    f: RouteFlags,
)
    requires
        0 < n <= u32::MAX,
        p_begin + n <= perm@.len(),
        old(snap)@.len() >= n,
        old(to_left)@.len() >= n,
        old(local_excl)@.len() >= n,
        old(block_totals)@.len() > num_blocks,
        0 < block_size <= u32::MAX,
        (num_blocks - 1) * block_size < n <= num_blocks * block_size,
        forall|i: int| 0 <= i < perm@.len() ==> col_off + #[trigger] perm@[i] < bins@.len(),
        route.sums_fit(n as nat),
        f == RouteFlags::spec_derive(route),
    ensures
        final(snap)@.len() == old(snap)@.len(),
        final(to_left)@.len() == old(to_left)@.len(),
        final(local_excl)@.len() == old(local_excl)@.len(),
        final(block_totals)@.len() == old(block_totals)@.len(),
        ({
            let rows = perm@.subrange(p_begin as int, p_begin + n);
            let marks = route.marks(column_bins(bins@, col_off as int, rows));
            &&& block_scanned(
                final(snap)@,
                final(to_left)@,
                final(local_excl)@,
                rows,
                marks,
                block_size as int,
                n as int,
            )
            &&& totals_of_blocks(final(block_totals)@, marks, block_size as int, num_blocks as int)
        }),
{
    let ghost rows = perm@.subrange(p_begin as int, p_begin + n);
    let ghost marks = route.marks(column_bins(bins@, col_off as int, rows));
    let ghost bs = block_size as int;
    let perm_len: usize = perm.len();
    let bins_len: usize = bins.len();
    let mut b: usize = 0;
    let mut start: usize = 0;
    while b < num_blocks
        invariant
            0 <= b <= num_blocks,
            perm_len == perm@.len(),
            bins_len == bins@.len(),
            0 < n <= u32::MAX,
            p_begin + n <= perm@.len(),
            snap@.len() >= n,
            to_left@.len() >= n,
            local_excl@.len() >= n,
            block_totals@.len() > num_blocks,
            snap@.len() == old(snap)@.len(),
            to_left@.len() == old(to_left)@.len(),
            local_excl@.len() == old(local_excl)@.len(),
            block_totals@.len() == old(block_totals)@.len(),
            0 < block_size <= u32::MAX,
            bs == block_size,
            (num_blocks - 1) * bs < n <= num_blocks * bs,
            forall|i: int| 0 <= i < perm@.len() ==> col_off + #[trigger] perm@[i] < bins@.len(),
            route.sums_fit(n as nat),
            f == RouteFlags::spec_derive(route),
            rows == perm@.subrange(p_begin as int, p_begin + n),
            marks == route.marks(column_bins(bins@, col_off as int, rows)),
            start == block_cut(b as int, bs, n as int),
            block_scanned(snap@, to_left@, local_excl@, rows, marks, bs, start as int),
            totals_of_blocks(block_totals@, marks, bs, b as int),
        decreases num_blocks - b,
    {
        proof {
            assert(b * bs <= (num_blocks - 1) * bs) by (nonlinear_arith)
                requires
                    b <= num_blocks - 1,
                    0 < bs,
            ;
            block_cut_step(b as int, bs, n as int);
        }
        let lim: usize = if block_size < n - start {
            start + block_size
        } else {
            n
        };
        let mut i: usize = start;
        while i < lim
            invariant
                start <= i <= lim,
                lim <= n <= u32::MAX,
                n > 0,
                perm_len == perm@.len(),
                bins_len == bins@.len(),
                p_begin + n <= perm@.len(),
                snap@.len() >= n,
                to_left@.len() >= n,
                snap@.len() == old(snap)@.len(),
                to_left@.len() == old(to_left)@.len(),
                forall|k: int| 0 <= k < perm@.len() ==> col_off + #[trigger] perm@[k] < bins@.len(),
                route.sums_fit(n as nat),
                f == RouteFlags::spec_derive(route),
                rows == perm@.subrange(p_begin as int, p_begin + n),
                marks == route.marks(column_bins(bins@, col_off as int, rows)),
                forall|k: int| 0 <= k < i ==> #[trigger] snap@[k] == rows[k],
                forall|k: int|
                    0 <= k < i ==> #[trigger] to_left@[k] == (if marks[k] { 1u32 } else { 0u32 }),
            decreases lim - i,
        {
            let di: u32 = perm[p_begin + i];
            assert(di == rows[i as int]);
            snap.set(i, di);
            let bin: i32 = bins.bin(col_off + di as usize) as i32;
            let mark: u32 = data_partition::route_to_left(
                bin,
                route.min_bin as i32,
                route.max_bin as i32,
                route.default_bin as i32,
                route.most_freq_bin as i32,
                route.threshold as i32,
                f,
            );
            to_left.set(i, mark);
            i += 1;
        }
        let mut acc: u32 = 0;
        let mut j: usize = start;
        proof {
            stable::tally_monotone(marks, start as int, start as int, true);
        }
        while j < lim
            invariant
                start <= j <= lim,
                lim <= n <= u32::MAX,
                0 < bs,
                b >= 0,
                start == b * bs,
                start == block_cut(b as int, bs, n as int),
                lim <= start + bs,
                n == marks.len(),
                to_left@.len() >= n,
                local_excl@.len() >= n,
                local_excl@.len() == old(local_excl)@.len(),
                acc == rank_before(marks, j as int) - rank_before(marks, start as int),
                acc <= j - start,
                forall|k: int|
                    0 <= k < lim ==> #[trigger] to_left@[k] == (if marks[k] { 1u32 } else { 0u32 }),
                forall|k: int|
                    0 <= k < j ==> #[trigger] local_excl@[k] == rank_before(marks, k) - rank_before(
                        marks,
                        block_cut(k / bs, bs, n as int),
                    ),
            decreases lim - j,
        {
            proof {
                assert(j as int / bs == b) by {
                    vstd::arithmetic::div_mod::lemma_fundamental_div_mod_converse(
                        j as int,
                        bs,
                        b as int,
                        j - start,
                    );
                }
                stable::tally_extends(marks, j as int, true);
            }
            local_excl.set(j, acc);
            acc = acc + to_left[j];
            j += 1;
        }
        block_totals.set(b, acc);
        b += 1;
        start = lim;
    }
    assert(start == n);
}

/// Second stage: turn the blocks' totals into the number of left rows before each block, with
/// the total number of left rows behind them.
fn scan_totals(
    block_totals: &mut Vec<u32>,
    num_blocks: usize,
    Ghost(marks): Ghost<Seq<bool>>,
    Ghost(bs): Ghost<int>,
) -> (total: u32)
    requires
        old(block_totals)@.len() > num_blocks,
        marks.len() <= u32::MAX,
        0 < bs,
        marks.len() <= num_blocks * bs,
        totals_of_blocks(old(block_totals)@, marks, bs, num_blocks as int),
    ensures
        final(block_totals)@.len() == old(block_totals)@.len(),
        bases_of_blocks(final(block_totals)@, marks, bs, num_blocks as int),
        final(block_totals)@[num_blocks as int] == stable::tally(marks, true),
        total == stable::tally(marks, true),
{
    let ghost n = marks.len() as int;
    let mut acc: u32 = 0;
    let mut b: usize = 0;
    proof {
        assert(0 * bs == 0) by (nonlinear_arith);
        assert(marks.take(0).len() == 0);
    }
    while b < num_blocks
        invariant
            b <= num_blocks,
            n == marks.len(),
            n <= u32::MAX,
            0 < bs,
            block_totals@.len() > num_blocks,
            block_totals@.len() == old(block_totals)@.len(),
            acc == rank_before(marks, block_cut(b as int, bs, n)),
            bases_of_blocks(block_totals@, marks, bs, b as int),
            totals_of_blocks(old(block_totals)@, marks, bs, num_blocks as int),
            forall|k: int| b <= k < num_blocks ==> #[trigger] block_totals@[k] == old(block_totals)@[k],
        decreases num_blocks - b,
    {
        let t: u32 = block_totals[b];
        assert(t == old(block_totals)@[b as int]);
        block_totals.set(b, acc);
        proof {
            assert(0 <= (b + 1) * bs) by (nonlinear_arith)
                requires
                    0 <= b,
                    0 < bs,
            ;
            stable::prefix_tallies_sum(marks, block_cut(b + 1, bs, n));
        }
        acc = acc + t;
        b += 1;
    }
    assert(marks.take(n) =~= marks);
    block_totals.set(num_blocks, acc);
    acc
}

/// `after` is `before` with the `rows.len()` entries from `p_begin` on replaced by the stable
/// partition of `rows`.
pub open spec fn span_partitioned(
    before: Seq<u32>,
    after: Seq<u32>,
    p_begin: int,
    rows: Seq<u32>,
    marks: Seq<bool>,
) -> bool {
    &&& after.len() == before.len()
    &&& after.subrange(p_begin, p_begin + rows.len()) == stable::stable_partition(rows, marks)
    &&& forall|k: int|
        0 <= k < before.len() && !(p_begin <= k < p_begin + rows.len()) ==> #[trigger] after[k] == before[k]
}

/// The first `upto` rows stand at their destinations, and nothing outside the span changed.
pub open spec fn rows_placed(
    before: Seq<u32>,
    after: Seq<u32>,
    p_begin: int,
    rows: Seq<u32>,
    marks: Seq<bool>,
    upto: int,
) -> bool {
    &&& after.len() == before.len()
    &&& forall|k: int|
        0 <= k < upto ==> after[p_begin + #[trigger] stable::destination(marks, k)] == rows[k]
    &&& forall|k: int|
        0 <= k < before.len() && !(p_begin <= k < p_begin + rows.len()) ==> #[trigger] after[k] == before[k]
}

proof fn all_rows_placed(before: Seq<u32>, after: Seq<u32>, p_begin: int, rows: Seq<u32>, marks: Seq<bool>)
    requires
        rows.len() == marks.len(),
        0 <= p_begin,
        p_begin + rows.len() <= before.len(),
        rows_placed(before, after, p_begin, rows, marks, rows.len() as int),
    ensures
        span_partitioned(before, after, p_begin, rows, marks),
{
    let out = after.subrange(p_begin, p_begin + rows.len());
    assert forall|i: int| 0 <= i < rows.len() implies out[#[trigger] stable::destination(marks, i)] == rows[i] by {
        stable::destination_holds_item(rows, marks, i);
    }
    stable::scatter_is_stable(rows, marks, out);
}

proof fn place_row(
    before: Seq<u32>,
    after: Seq<u32>,
    p_begin: int,
    rows: Seq<u32>,
    marks: Seq<bool>,
    i: int,
)
    requires
        rows.len() == marks.len(),
        0 <= i < rows.len(),
        0 <= p_begin,
        p_begin + rows.len() <= before.len(),
        rows_placed(before, after, p_begin, rows, marks, i),
    ensures
        0 <= stable::destination(marks, i) < rows.len(),
        rows_placed(
            before,
            after.update(p_begin + stable::destination(marks, i), rows[i]),
            p_begin,
            rows,
            marks,
            i + 1,
        ),
{
    stable::destination_holds_item(rows, marks, i);
    let next = after.update(p_begin + stable::destination(marks, i), rows[i]);
    assert forall|k: int| 0 <= k < i + 1 implies next[p_begin + #[trigger] stable::destination(marks, k)]
        == rows[k] by {
        stable::destination_holds_item(rows, marks, k);
        if k < i {
            stable::destinations_are_distinct(marks, k, i);
        }
    }
}

/// Third stage: move each row to its destination, by its block's base and its rank in it.
fn scatter_rows(
    snap: &Vec<u32>,
    to_left: &Vec<u32>,
    local_excl: &Vec<u32>,
    block_totals: &Vec<u32>,
    perm: &mut Vec<u32>,
    p_begin: usize,
    n: usize,
    block_size: usize,
    num_blocks: usize,
    Ghost(rows): Ghost<Seq<u32>>,
    Ghost(marks): Ghost<Seq<bool>>,
)
    requires
        0 < n <= u32::MAX,
        p_begin + n <= old(perm)@.len(),
        snap@.len() >= n,
        to_left@.len() >= n,
        local_excl@.len() >= n,
        block_totals@.len() > num_blocks,
        0 < block_size <= u32::MAX,
        n <= num_blocks * block_size,
        rows.len() == n,
        marks.len() == n,
        block_scanned(snap@, to_left@, local_excl@, rows, marks, block_size as int, n as int),
        bases_of_blocks(block_totals@, marks, block_size as int, num_blocks as int),
        block_totals@[num_blocks as int] == stable::tally(marks, true),
    ensures
        span_partitioned(old(perm)@, final(perm)@, p_begin as int, rows, marks),
{
    let ghost bs = block_size as int;
    let perm_len: usize = perm.len();
    let total: u32 = block_totals[num_blocks];
    let mut i: usize = 0;
    while i < n
        invariant
            i <= n,
            0 < n <= u32::MAX,
            perm_len == old(perm)@.len(),
            p_begin + n <= perm_len,
            snap@.len() >= n,
            to_left@.len() >= n,
            local_excl@.len() >= n,
            block_totals@.len() > num_blocks,
            0 < block_size,
            bs == block_size,
            n <= num_blocks * bs,
            rows.len() == n,
            marks.len() == n,
            total == stable::tally(marks, true),
            block_scanned(snap@, to_left@, local_excl@, rows, marks, bs, n as int),
            bases_of_blocks(block_totals@, marks, bs, num_blocks as int),
            rows_placed(old(perm)@, perm@, p_begin as int, rows, marks, i as int),
        decreases n - i,
    {
        let b: usize = i / block_size;
        proof {
            vstd::arithmetic::div_mod::lemma_fundamental_div_mod(i as int, bs);
            let q = i as int / bs;
            assert(bs * q == q * bs) by (nonlinear_arith);
            assert(0 <= i as int % bs < bs) by {
                vstd::arithmetic::div_mod::lemma_mod_bound(i as int, bs);
            }
            assert(q < num_blocks) by (nonlinear_arith)
                requires
                    q * bs <= i,
                    i < n,
                    n <= num_blocks * bs,
                    0 < bs,
            ;
            assert(0 <= q * bs) by (nonlinear_arith)
                requires
                    0 <= q,
                    0 < bs,
            ;
            assert(block_cut(q, bs, n as int) == q * bs);
            stable::tally_monotone(marks, q * bs, i as int, true);
            stable::prefix_tallies_sum(marks, i as int);
            stable::tallies_sum(marks);
            place_row(old(perm)@, perm@, p_begin as int, rows, marks, i as int);
        }
        let excl: u32 = block_totals[b] + local_excl[i];
        let dest: u32 = if to_left[i] == 1 {
            excl
        } else {
            total + (i as u32 - excl)
        };
        perm.set(p_begin + dest as usize, snap[i]);
        i += 1;
    }
    proof {
        all_rows_placed(old(perm)@, perm@, p_begin as int, rows, marks);
    }
}

/// Second and third stage in one: each block sums the totals before it, then moves its rows.
/// Returns the number of left rows.
fn scatter_rows_fused(
    snap: &Vec<u32>,
    to_left: &Vec<u32>,
    local_excl: &Vec<u32>,
    block_totals: &Vec<u32>,
    perm: &mut Vec<u32>,
    p_begin: usize,
    n: usize,
    block_size: usize,
    num_blocks: usize,
    Ghost(rows): Ghost<Seq<u32>>,
    Ghost(marks): Ghost<Seq<bool>>,
) -> (split_point: u32)
    requires
        0 < n <= u32::MAX,
        p_begin + n <= old(perm)@.len(),
        snap@.len() >= n,
        to_left@.len() >= n,
        local_excl@.len() >= n,
        block_totals@.len() > num_blocks,
        0 < block_size <= u32::MAX,
        (num_blocks - 1) * block_size < n <= num_blocks * block_size,
        rows.len() == n,
        marks.len() == n,
        block_scanned(snap@, to_left@, local_excl@, rows, marks, block_size as int, n as int),
        totals_of_blocks(block_totals@, marks, block_size as int, num_blocks as int),
    ensures
        span_partitioned(old(perm)@, final(perm)@, p_begin as int, rows, marks),
        split_point == stable::tally(marks, true),
{
    let ghost bs = block_size as int;
    let perm_len: usize = perm.len();
    let mut split_point: u32 = 0;
    let mut b: usize = 0;
    let mut start: usize = 0;
    while b < num_blocks
        invariant
            b <= num_blocks,
            0 < n <= u32::MAX,
            perm_len == old(perm)@.len(),
            p_begin + n <= perm_len,
            snap@.len() >= n,
            to_left@.len() >= n,
            local_excl@.len() >= n,
            block_totals@.len() > num_blocks,
            0 < block_size <= u32::MAX,
            bs == block_size,
            (num_blocks - 1) * bs < n <= num_blocks * bs,
            rows.len() == n,
            marks.len() == n,
            block_scanned(snap@, to_left@, local_excl@, rows, marks, bs, n as int),
            totals_of_blocks(block_totals@, marks, bs, num_blocks as int),
            start == block_cut(b as int, bs, n as int),
            b > 0 ==> split_point == stable::tally(marks, true),
            rows_placed(old(perm)@, perm@, p_begin as int, rows, marks, start as int),
        decreases num_blocks - b,
    {
        proof {
            assert(b * bs <= (num_blocks - 1) * bs) by (nonlinear_arith)
                requires
                    b <= num_blocks - 1,
                    0 < bs,
            ;
            block_cut_step(b as int, bs, n as int);
        }
        let (base, total): (u32, u32) = block_base_and_total(
            block_totals,
            num_blocks,
            b,
            Ghost(marks),
            Ghost(bs),
        );
        if b == 0 {
            split_point = total;
        }
        let lim: usize = if block_size < n - start {
            start + block_size
        } else {
            n
        };
        let mut i: usize = start;
        while i < lim
            invariant
                start <= i <= lim,
                lim <= n <= u32::MAX,
                b >= 0,
                0 < bs,
                start == b * bs,
                start == block_cut(b as int, bs, n as int),
                lim <= start + bs,
                perm_len == old(perm)@.len(),
                p_begin + n <= perm_len,
                snap@.len() >= n,
                to_left@.len() >= n,
                local_excl@.len() >= n,
                rows.len() == n,
                marks.len() == n,
                base == rank_before(marks, start as int),
                total == stable::tally(marks, true),
                block_scanned(snap@, to_left@, local_excl@, rows, marks, bs, n as int),
                rows_placed(old(perm)@, perm@, p_begin as int, rows, marks, i as int),
            decreases lim - i,
        {
            proof {
                vstd::arithmetic::div_mod::lemma_fundamental_div_mod_converse(
                    i as int,
                    bs,
                    b as int,
                    i - start,
                );
                stable::tally_monotone(marks, start as int, i as int, true);
                stable::prefix_tallies_sum(marks, i as int);
                stable::tallies_sum(marks);
                place_row(old(perm)@, perm@, p_begin as int, rows, marks, i as int);
            }
            let excl: u32 = base + local_excl[i];
            let dest: u32 = if to_left[i] == 1 {
                excl
            } else {
                total + (i as u32 - excl)
            };
            perm.set(p_begin + dest as usize, snap[i]);
            i += 1;
        }
        b += 1;
        start = lim;
    }
    proof {
        assert(num_blocks > 0) by (nonlinear_arith)
            requires
                0 < n <= num_blocks * bs,
                0 < bs,
        ;
        all_rows_placed(old(perm)@, perm@, p_begin as int, rows, marks);
    }
    split_point
}

/// The number of left rows before block `b`, and in all blocks.
fn block_base_and_total(
    block_totals: &Vec<u32>,
    num_blocks: usize,
    b: usize,
    Ghost(marks): Ghost<Seq<bool>>,
    Ghost(bs): Ghost<int>,
) -> (r: (u32, u32))
    requires
        block_totals@.len() > num_blocks,
        b < num_blocks,
        marks.len() <= u32::MAX,
        0 < bs,
        marks.len() <= num_blocks * bs,
        totals_of_blocks(block_totals@, marks, bs, num_blocks as int),
    ensures
        r.0 == rank_before(marks, block_cut(b as int, bs, marks.len() as int)),
        r.1 == stable::tally(marks, true),
{
    let ghost n = marks.len() as int;
    let mut acc: u32 = 0;
    let mut base: u32 = 0;
    let mut k: usize = 0;
    proof {
        assert(0 * bs == 0) by (nonlinear_arith);
        assert(marks.take(0).len() == 0);
    }
    while k < num_blocks
        invariant
            k <= num_blocks,
            b < num_blocks,
            n == marks.len(),
            n <= u32::MAX,
            0 < bs,
            block_totals@.len() > num_blocks,
            acc == rank_before(marks, block_cut(k as int, bs, n)),
            k > b ==> base == rank_before(marks, block_cut(b as int, bs, n)),
            totals_of_blocks(block_totals@, marks, bs, num_blocks as int),
        decreases num_blocks - k,
    {
        if k == b {
            base = acc;
        }
        proof {
            assert(0 <= (k + 1) * bs) by (nonlinear_arith)
                requires
                    0 <= k,
                    0 < bs,
            ;
            stable::prefix_tallies_sum(marks, block_cut(k + 1, bs, n));
        }
        acc = acc + block_totals[k];
        k += 1;
    }
    assert(marks.take(n) =~= marks);
    (base, acc)
}

/// The fault of a partition of a resident permutation of `num_data` rows.
pub open spec fn resident_fault(
    num_bin: u32,
    threshold: u32,
    leaf_id: usize,
    num_leaves: nat,
    p_begin: i32,
    p_count: i32,
    num_data: nat,
    col_off: usize,
    bins_len: nat,
) -> Option<Fault> {
    if num_bin == 0 {
        Some(Fault::Runtime("resident partition: num_bin must be > 0"@))
    } else if threshold >= num_bin {
        Some(
            Fault::Runtime(
                "resident partition: threshold "@ + text::decimal(threshold as nat)
                    + " >= num_bin "@ + text::decimal(num_bin as nat),
            ),
        )
    } else if leaf_id >= num_leaves {
        Some(
            Fault::Runtime(
                "resident partition: leaf_id "@ + text::decimal(leaf_id as nat)
                    + " >= num_leaves "@ + text::decimal(num_leaves),
            ),
        )
    } else if p_begin < 0 || p_count <= 0 || p_begin + p_count > num_data {
        Some(
            Fault::Runtime(
                "resident partition: span ["@ + text::signed_decimal(p_begin as int) + ", "@
                    + text::signed_decimal(p_begin as int) + "+"@ + text::signed_decimal(p_count as int)
                    + ") out of range for num_data "@ + text::decimal(num_data),
            ),
        )
    } else if col_off + num_data > bins_len {
        Some(
            Fault::Runtime(
                "resident partition: feature column ["@ + text::decimal(col_off as nat) + ", "@
                    + text::decimal(col_off as nat) + "+"@ + text::decimal(num_data)
                    + ") out of range for resident bins len "@ + text::decimal(bins_len),
            ),
        )
    } else {
        None
    }
}

/// Check a partition of a resident permutation of `num_data` rows: the split, the leaf, the span
/// of its rows, and the feature's column among `bins_len` resident bins.
pub fn check_resident_partition(
    num_bin: u32,
    threshold: u32,
    leaf_id: usize,
    num_leaves: usize,
    p_begin: i32,
    p_count: i32,
    num_data: usize,
    col_off: usize,
    bins_len: usize,
) -> (r: Result<(), ComputeError>)
    ensures
        error::fails_as(
            r,
            resident_fault(
                num_bin,
                threshold,
                leaf_id,
                num_leaves as nat,
                p_begin,
                p_count,
                num_data as nat,
                col_off,
                bins_len as nat,
            ),
        ),
{
    if num_bin == 0 {
        return Err(error::runtime_error("resident partition: num_bin must be > 0"));
    }
    if threshold >= num_bin {
        let mut detail: String = "resident partition: threshold ".to_owned();
        text::push_decimal(&mut detail, threshold as u64);
        detail.append(" >= num_bin ");
        text::push_decimal(&mut detail, num_bin as u64);
        return Err(ComputeError::Runtime { detail });
    }
    if leaf_id >= num_leaves {
        let mut detail: String = "resident partition: leaf_id ".to_owned();
        text::push_decimal(&mut detail, leaf_id as u64);
        detail.append(" >= num_leaves ");
        text::push_decimal(&mut detail, num_leaves as u64);
        return Err(ComputeError::Runtime { detail });
    }
    if p_begin < 0 || p_count <= 0 || p_begin as u64 + p_count as u64 > num_data as u64 {
        let mut detail: String = "resident partition: span [".to_owned();
        text::push_signed_decimal(&mut detail, p_begin as i64);
        detail.append(", ");
        text::push_signed_decimal(&mut detail, p_begin as i64);
        detail.append("+");
        text::push_signed_decimal(&mut detail, p_count as i64);
        detail.append(") out of range for num_data ");
        text::push_decimal(&mut detail, num_data as u64);
        return Err(ComputeError::Runtime { detail });
    }
    if num_data > bins_len || col_off > bins_len - num_data {
        let mut detail: String = "resident partition: feature column [".to_owned();
        text::push_decimal(&mut detail, col_off as u64);
        detail.append(", ");
        text::push_decimal(&mut detail, col_off as u64);
        detail.append("+");
        text::push_decimal(&mut detail, num_data as u64);
        detail.append(") out of range for resident bins len ");
        text::push_decimal(&mut detail, bins_len as u64);
        return Err(ComputeError::Runtime { detail });
    }
    Ok(())
}

/// A permutation of row ids holds only row ids.
pub proof fn permutation_in_range(perm: Seq<u32>, n: nat)
    requires
        n <= u32::MAX,
        perm.to_multiset() == row_ids(n).to_multiset(),
    ensures
        perm.len() == n,
        forall|i: int| 0 <= i < perm.len() ==> #[trigger] perm[i] < n,
{
    perm.to_multiset_ensures();
    row_ids(n).to_multiset_ensures();
    assert forall|i: int| 0 <= i < perm.len() implies #[trigger] perm[i] < n by {
        assert(perm.contains(perm[i]));
        assert(perm.to_multiset().count(perm[i]) > 0);
        assert(row_ids(n).contains(perm[i]));
    }
}

/// Partitioning a span of a permutation leaves a permutation of the same row ids.
pub proof fn span_partition_is_permutation(
    before: Seq<u32>,
    after: Seq<u32>,
    p_begin: int,
    rows: Seq<u32>,
    marks: Seq<bool>,
)
    requires
        0 <= p_begin,
        p_begin + rows.len() <= before.len(),
        rows == before.subrange(p_begin, p_begin + rows.len()),
        rows.len() == marks.len(),
        span_partitioned(before, after, p_begin, rows, marks),
    ensures
        after.to_multiset() == before.to_multiset(),
{
    let end = p_begin + rows.len();
    let head = before.take(p_begin);
    let tail = before.skip(end);
    let part = stable::stable_partition(rows, marks);
    stable::partition_is_permutation(rows, marks);
    assert(before =~= head + rows + tail);
    assert(after =~= head + part + tail) by {
        assert(after.subrange(p_begin, end) == part);
        assert forall|k: int| 0 <= k < after.len() implies after[k] == (head + part + tail)[k] by {
            if p_begin <= k < end {
                assert(after.subrange(p_begin, end)[k - p_begin] == after[k]);
            }
        }
    }
    vstd::seq_lib::lemma_multiset_commutative(head, rows);
    vstd::seq_lib::lemma_multiset_commutative(head, part);
    vstd::seq_lib::lemma_multiset_commutative(head + rows, tail);
    vstd::seq_lib::lemma_multiset_commutative(head + part, tail);
}

/// A row permutation that is kept resident and partitioned in place, with its scratch
/// buffers. Its view is the permutation.
#[derive(Debug)]
pub struct ResidentPermPartition {
    perm: Vec<u32>,
    snap: Vec<u32>,
    to_left: Vec<u32>,
    local_excl: Vec<u32>,
    block_totals: Vec<u32>,
    num_data: usize,
}

impl View for ResidentPermPartition {
    type V = Seq<u32>;

    closed spec fn view(&self) -> Seq<u32> {
        self.perm@
    }
}

impl ResidentPermPartition {
    /// The buffers are sized for the rows, and the permutation holds each row id once.
    pub closed spec fn wf(&self) -> bool {
        &&& 0 < self.num_data <= u32::MAX
        &&& self.perm@.len() == self.num_data
        &&& self.snap@.len() == self.num_data
        &&& self.to_left@.len() == self.num_data
        &&& self.local_excl@.len() == self.num_data
        &&& self.block_totals@.len() == MAX_SCAN_BLOCKS + 1
        &&& self.perm@.to_multiset() == row_ids(self.num_data as nat).to_multiset()
    }

    /// The identity permutation of `num_data` rows.
    pub fn new(num_data: usize) -> (r: Result<ResidentPermPartition, ComputeError>)
        requires
            num_data <= u32::MAX,
        ensures
            error::fails_as(
                r,
                if num_data == 0 {
                    Some(Fault::Runtime("ResidentPermPartition: num_data must be > 0"@))
                } else {
                    None
                },
            ),
            r matches Ok(p) ==> p.wf() && p@ == row_ids(num_data as nat),
    {
        if num_data == 0 {
            return Err(error::runtime_error("ResidentPermPartition: num_data must be > 0"));
        }
        let perm = iota_u32(num_data);
        Ok(
            ResidentPermPartition {
                perm,
                snap: vec![0u32; num_data],
                to_left: vec![0u32; num_data],
                local_excl: vec![0u32; num_data],
                block_totals: vec![0u32; MAX_SCAN_BLOCKS + 1],
                num_data,
            },
        )
    }

    /// The rows from position `begin` on.
    pub fn rows_view(&self, begin: usize) -> (rows: &[u32])
        requires
            self.wf(),
            begin <= self@.len(),
        ensures
            rows@ == self@.skip(begin as int),
    {
        let rows = &self.perm.as_slice()[begin..self.perm.len()];
        assert(rows@ =~= self@.skip(begin as int));
        rows
    }

    /// A copy of the permutation.
    pub fn read_perm(&self) -> (perm: Vec<u32>)
        ensures
            perm@ == self@,
    {
        let mut copy: Vec<u32> = Vec::with_capacity(self.perm.len());
        let mut i: usize = 0;
        while i < self.perm.len()
            invariant
                i <= self.perm@.len(),
                copy@ == self.perm@.take(i as int),
            decreases self.perm@.len() - i,
        {
            copy.push(self.perm[i]);
            i += 1;
            assert(copy@ =~= self.perm@.take(i as int));
        }
        assert(copy@ =~= self.perm@);
        copy
    }

    /// Each row id occurs exactly once.
    pub proof fn is_permutation(&self)
        requires
            self.wf(),
        ensures
            0 < self@.len() <= u32::MAX,
            self@.to_multiset() == row_ids(self@.len()).to_multiset(),
            forall|i: int| 0 <= i < self@.len() ==> #[trigger] self@[i] < self@.len(),
    {
        permutation_in_range(self@, self@.len());
    }

    /// Partition the leaf whose rows are `p_count` entries from `p_begin` on, in place, by a
    /// numeric split of the feature whose column starts at `col_off` of the resident bins, and
    /// store where the children lie. `fuse_bc` joins the second and the third stage.
    pub fn partition_leaf(
        &mut self,
        resident_bins: &BinColumn,
        col_off: usize,
        num_bin: u32,
        min_bin: u32,
        max_bin: u32,
        default_bin: u32,
        most_freq_bin: u32,
        missing_type: u8,
        default_left: bool,
        threshold: u32,
        leaf_splits: &mut DeviceLeafSplits,
        leaf_id: usize,
        p_begin: i32,
        p_count: i32,
        fuse_bc: bool,
    ) -> (r: Result<(), ComputeError>)
        requires
            old(self).wf(),
            old(leaf_splits).wf(),
            resident_fault(
                num_bin,
                threshold,
                leaf_id,
                old(leaf_splits)@.len(),
                p_begin,
                p_count,
                old(self)@.len(),
                col_off,
                resident_bins@.len(),
            ) is None ==> (NumericRoute {
                min_bin,
                max_bin,
                default_bin,
                most_freq_bin,
                missing_type,
                default_left,
                threshold,
            }).sums_fit(p_count as nat) && p_begin + p_count <= i32::MAX,
        ensures
            final(self).wf(),
            final(leaf_splits).wf(),
            final(self)@.len() == old(self)@.len(),
            final(leaf_splits)@.len() == old(leaf_splits)@.len(),
            error::fails_as(
                r,
                resident_fault(
                    num_bin,
                    threshold,
                    leaf_id,
                    old(leaf_splits)@.len(),
                    p_begin,
                    p_count,
                    old(self)@.len(),
                    col_off,
                    resident_bins@.len(),
                ),
            ),
            r is Err ==> final(self)@ == old(self)@ && final(leaf_splits)@ == old(leaf_splits)@,
            r is Ok ==> {
                let rows = old(self)@.subrange(p_begin as int, p_begin + p_count);
                let marks = (NumericRoute {
                    min_bin,
                    max_bin,
                    default_bin,
                    most_freq_bin,
                    missing_type,
                    default_left,
                    threshold,
                }).marks(column_bins(resident_bins@, col_off as int, rows));
                &&& span_partitioned(old(self)@, final(self)@, p_begin as int, rows, marks)
                &&& ranges_split_parent(
                    final(leaf_splits)@[leaf_id as int],
                    p_begin as int,
                    p_count as int,
                    stable::tally(marks, true) as int,
                )
                &&& forall|leaf: int|
                    0 <= leaf < old(leaf_splits)@.len() && leaf != leaf_id ==> #[trigger] final(leaf_splits)@[leaf]
                        == old(leaf_splits)@[leaf]
            },
    {
        check_resident_partition(
            num_bin,
            threshold,
            leaf_id,
            leaf_splits.num_leaves(),
            p_begin,
            p_count,
            self.num_data,
            col_off,
            resident_bins.len(),
        )?;
        let n: usize = p_count as usize;
        let block_size: usize = data_partition::scan_block_size(n) as usize;
        let num_blocks: usize = n / block_size + (if n % block_size == 0 {
            0
        } else {
            1
        });
        proof {
            block_count_bounds(n as int, block_size as int, num_blocks as int);
        }
        let f = RouteFlags::derive(
            min_bin,
            max_bin,
            default_bin,
            most_freq_bin,
            missing_type,
            default_left,
        );
        let route = NumericRoute {
            min_bin,
            max_bin,
            default_bin,
            most_freq_bin,
            missing_type,
            default_left,
            threshold,
        };
        let begin: usize = p_begin as usize;
        let ghost before = self.perm@;
        let ghost rows = before.subrange(begin as int, begin + n);
        let ghost marks = route.marks(column_bins(resident_bins@, col_off as int, rows));
        proof {
            permutation_in_range(before, self.num_data as nat);
            stable::tallies_sum(marks);
        }
        mark_block_scan(
            resident_bins,
            &self.perm,
            &mut self.snap,
            &mut self.to_left,
            &mut self.local_excl,
            &mut self.block_totals,
            col_off,
            begin,
            n,
            block_size,
            num_blocks,
            route,
            f,
        );
        let split_point: u32 = if fuse_bc {
            scatter_rows_fused(
                &self.snap,
                &self.to_left,
                &self.local_excl,
                &self.block_totals,
                &mut self.perm,
                begin,
                n,
                block_size,
                num_blocks,
                Ghost(rows),
                Ghost(marks),
            )
        } else {
            let total: u32 = scan_totals(
                &mut self.block_totals,
                num_blocks,
                Ghost(marks),
                Ghost(block_size as int),
            );
            scatter_rows(
                &self.snap,
                &self.to_left,
                &self.local_excl,
                &self.block_totals,
                &mut self.perm,
                begin,
                n,
                block_size,
                num_blocks,
                Ghost(rows),
                Ghost(marks),
            );
            total
        };
        leaf_splits.write_child_ranges(leaf_id, split_point as i32, p_begin, p_count);
        proof {
            span_partition_is_permutation(before, self.perm@, begin as int, rows, marks);
        }
        Ok(())
    }
}

/// The row ids `0, 1, ..., n - 1`.
pub fn iota_u32(n: usize) -> (ids: Vec<u32>)
    ensures
        ids@ == row_ids(n as nat),
{
    let mut ids: Vec<u32> = Vec::with_capacity(n);
    let mut i: usize = 0;
    while i < n
        invariant
            i <= n,
            ids@ == row_ids(n as nat).take(i as int),
        decreases n - i,
    {
        ids.push(i as u32);
        i += 1;
        assert(ids@ =~= row_ids(n as nat).take(i as int));
    }
    assert(ids@ =~= row_ids(n as nat));
    ids
}

proof fn block_count_bounds(n: int, bs: int, nb: int)
    requires
        0 < n <= i32::MAX,
        bs == (if ((n + 1023) / 1024) as u32 > 256 { ((n + 1023) / 1024) as u32 as int } else { 256int }),
        nb == n / bs + (if n % bs == 0 { 0int } else { 1int }),
    ensures
        0 < bs <= u32::MAX,
        (nb - 1) * bs < n <= nb * bs,
        0 < nb <= MAX_SCAN_BLOCKS,
{
    let w = (n + 1023) / 1024;
    assert(0 <= w <= u32::MAX);
    assert(w as u32 as int == w);
    assert(n <= 1024 * bs);
    vstd::arithmetic::div_mod::lemma_fundamental_div_mod(n, bs);
    vstd::arithmetic::div_mod::lemma_mod_bound(n, bs);
    let q = n / bs;
    let m = n % bs;
    assert(q * bs == bs * q) by (nonlinear_arith);
    assert((q + 1) * bs == q * bs + bs) by (nonlinear_arith);
    assert((q - 1) * bs == q * bs - bs) by (nonlinear_arith);
    assert(nb <= 1024) by (nonlinear_arith)
        requires
            (nb - 1) * bs < n,
            n <= 1024 * bs,
            0 < bs,
    ;
    assert(0 < nb) by (nonlinear_arith)
        requires
            0 < n <= nb * bs,
            0 < bs,
    ;
}

} // verus!
