//! The row partition of one leaf: which child each row goes to, and the stable reordering
//! of the leaf's row ids into left rows followed by right rows.
use crate::bin_column::BinColumn;
use crate::error;
use crate::error::{ComputeError, Fault};
use crate::kernels::split_info::SplitScalars;
use crate::number::Real64;
use crate::stable;
use crate::text;
use vstd::prelude::*;

verus! {

/// The constant part of a numeric route decision, derived once per split.
#[derive(Clone, Copy, Debug, PartialEq, Eq, Structural)]
pub struct RouteFlags {
    /// Zero is the missing value.
    pub miss_is_zero: bool,
    /// Not-a-number is the missing value.
    pub miss_is_na: bool,
    /// The zero bin is the most frequent bin.
    pub mfb_is_zero: bool,
    /// The not-a-number bin is the most frequent bin.
    pub mfb_is_na: bool,
    /// The feature has a single stored bin.
    pub min_is_max: bool,
    /// Missing values go left.
    pub default_left: bool,
}

/// The parameters of a numeric split, as its contracts speak of them.
#[derive(Clone, Copy, Debug, PartialEq, Eq, Structural)]
pub struct NumericRoute {
    pub min_bin: u32,
    pub max_bin: u32,
    pub default_bin: u32,
    pub most_freq_bin: u32,
    pub missing_type: u8,
    pub default_left: bool,
    pub threshold: u32,
}

/// One where the most frequent bin is bin 0, whose rows are not stored.
pub open spec fn mfb_shift(most_freq_bin: int) -> int {
    if most_freq_bin == 0 {
        1
    } else {
        0
    }
}

/// Whether a row with bin `bin` goes to the left child.
///
/// A missing row follows the default direction. A row outside the stored bins holds the most
/// frequent bin: it follows the default direction where that bin is the missing one, and the
/// side of the most frequent bin otherwise. Any other row is compared with the threshold.
pub open spec fn spec_route_left(
    bin: int,
    min_bin: int,
    max_bin: int,
    default_bin: int,
    most_freq_bin: int,
    threshold: int,
    f: RouteFlags,
) -> bool {
    let shift = mfb_shift(most_freq_bin);
    let missing_left = (f.miss_is_zero || f.miss_is_na) && f.default_left;
    let is_zero = f.miss_is_zero && !f.mfb_is_zero && bin == min_bin + default_bin - shift;
    let is_na = f.miss_is_na && !f.mfb_is_na && bin == max_bin;
    let stored = if f.min_is_max {
        bin == max_bin
    } else {
        min_bin <= bin <= max_bin
    };
    if is_zero || is_na {
        missing_left
    } else if stored {
        bin <= threshold + min_bin - shift
    } else if (f.miss_is_na && f.mfb_is_na) || (f.miss_is_zero && f.mfb_is_zero) {
        missing_left
    } else {
        most_freq_bin <= threshold
    }
}

/// The sums of a route decision stay within 32 bits.
pub open spec fn route_sums_fit(
    min_bin: i32,
    default_bin: i32,
    most_freq_bin: i32,
    threshold: i32,
) -> bool {
    &&& i32::MIN <= threshold + min_bin <= i32::MAX
    &&& i32::MIN <= min_bin + default_bin <= i32::MAX
    &&& i32::MIN <= threshold + min_bin - mfb_shift(most_freq_bin as int)
    &&& i32::MIN <= min_bin + default_bin - mfb_shift(most_freq_bin as int)
}

impl RouteFlags {
    /// The flags of a split, from its bin layout and missing-value code
    /// (1: zero, 2: not-a-number, otherwise none).
    pub open spec fn spec_derive(r: NumericRoute) -> RouteFlags {
        RouteFlags {
            miss_is_zero: r.missing_type == 1,
            miss_is_na: r.missing_type == 2,
            mfb_is_zero: r.missing_type == 1 && r.default_bin == r.most_freq_bin,
            mfb_is_na: r.missing_type == 2 && r.max_bin == r.most_freq_bin + r.min_bin
                && r.most_freq_bin > 0,
            min_is_max: r.min_bin == r.max_bin,
            default_left: r.default_left,
        }
    }

    /// Derive the flags of a split.
    pub fn derive(
        min_bin: u32,
        max_bin: u32,
        default_bin: u32,
        most_freq_bin: u32,
        missing_type: u8,
        default_left: bool,
    ) -> (f: RouteFlags)
        requires
            missing_type == 2 ==> most_freq_bin + min_bin <= u32::MAX,
        ensures
            forall|threshold: u32|
                f == #[trigger] RouteFlags::spec_derive(
                    NumericRoute {
                        min_bin,
                        max_bin,
                        default_bin,
                        most_freq_bin,
                        missing_type,
                        default_left,
                        threshold,
                    },
                ),
            f.miss_is_zero <==> missing_type == 1,
            f.miss_is_na <==> missing_type == 2,
            f.mfb_is_zero <==> missing_type == 1 && default_bin == most_freq_bin,
            f.mfb_is_na <==> missing_type == 2 && max_bin == most_freq_bin + min_bin && most_freq_bin > 0,
            f.min_is_max <==> min_bin == max_bin,
            f.default_left == default_left,
    {
        let miss_is_zero = missing_type == 1;
        let miss_is_na = missing_type == 2;
        RouteFlags {
            miss_is_zero,
            miss_is_na,
            mfb_is_zero: miss_is_zero && default_bin == most_freq_bin,
            mfb_is_na: miss_is_na && (max_bin == most_freq_bin + min_bin && most_freq_bin > 0),
            min_is_max: min_bin == max_bin,
            default_left,
        }
    }
}

impl NumericRoute {
    /// Whether a row with bin `bin` goes left under this split.
    pub open spec fn goes_left(self, bin: u32) -> bool {
        spec_route_left(
            bin as i32 as int,
            self.min_bin as i32 as int,
            self.max_bin as i32 as int,
            self.default_bin as i32 as int,
            self.most_freq_bin as i32 as int,
            self.threshold as i32 as int,
            RouteFlags::spec_derive(self),
        )
    }

    /// The sums that deriving the flags and deciding the routes of `rows` rows take are in
    /// range.
    pub open spec fn sums_fit(self, rows: nat) -> bool {
        &&& self.missing_type == 2 ==> self.most_freq_bin + self.min_bin <= u32::MAX
        &&& rows > 0 ==> route_sums_fit(
            self.min_bin as i32,
            self.default_bin as i32,
            self.most_freq_bin as i32,
            self.threshold as i32,
        )
    }

    /// The left marks of a sequence of bins.
    pub open spec fn marks(self, bins: Seq<u32>) -> Seq<bool> {
        Seq::new(bins.len(), |i: int| self.goes_left(bins[i]))
    }
}

/// The route decision in its branching form.
pub fn route_left_host(
    bin: i32,
    min_bin: i32,
    max_bin: i32,
    default_bin: i32,
    most_freq_bin: i32,
    threshold: i32,
    f: RouteFlags,
) -> (left: bool)
    requires
        route_sums_fit(min_bin, default_bin, most_freq_bin, threshold),
        f.min_is_max ==> min_bin == max_bin,
    ensures
        left == spec_route_left(
            bin as int,
            min_bin as int,
            max_bin as int,
            default_bin as int,
            most_freq_bin as int,
            threshold as int,
            f,
        ),
{
    let mfb0: i32 = if most_freq_bin == 0 {
        1
    } else {
        0
    };
    let th: i32 = threshold + min_bin - mfb0;
    let t_zero: i32 = min_bin + default_bin - mfb0;
    let default_left = most_freq_bin <= threshold;
    let mz = f.miss_is_zero && !f.mfb_is_zero;
    let mna = f.miss_is_na && !f.mfb_is_na;
    let missing_left = (f.miss_is_zero || f.miss_is_na) && f.default_left;
    let ftm = (f.miss_is_na && f.mfb_is_na) || (f.miss_is_zero && f.mfb_is_zero);
    let cond_missing_zero = mz && bin == t_zero;
    let cond_missing_na = mna && bin == max_bin;
    if f.min_is_max {
        if cond_missing_zero {
            missing_left
        } else if bin != max_bin {
            if ftm {
                missing_left
            } else {
                default_left
            }
        } else if mna {
            missing_left
        } else {
            max_bin <= th
        }
    } else if cond_missing_zero || cond_missing_na {
        missing_left
    } else if bin < min_bin || bin > max_bin {
        if ftm {
            missing_left
        } else {
            default_left
        }
    } else {
        bin <= th
    }
}

fn select_i32(condition: bool, yes: i32, no: i32) -> (r: i32)
    ensures
        r == (if condition { yes } else { no }),
{
    if condition {
        yes
    } else {
        no
    }
}

/// The route decision as the mark kernel takes it: every candidate is computed and one is
/// selected. Returns 1 for left and 0 for right.
pub fn route_to_left(
    bin: i32,
    min_bin: i32,
    max_bin: i32,
    default_bin: i32,
    most_freq_bin: i32,
    threshold: i32,
    f: RouteFlags,
) -> (mark: u32)
    requires
        route_sums_fit(min_bin, default_bin, most_freq_bin, threshold),
        f.min_is_max ==> min_bin == max_bin,
    ensures
        mark == (if spec_route_left(
            bin as int,
            min_bin as int,
            max_bin as int,
            default_bin as int,
            most_freq_bin as int,
            threshold as int,
            f,
        ) { 1u32 } else { 0u32 }),
{
    let mfb0: i32 = select_i32(most_freq_bin == 0, 1, 0);
    let th: i32 = threshold + min_bin - mfb0;
    let t_zero: i32 = min_bin + default_bin - mfb0;
    let default_target: i32 = select_i32(most_freq_bin <= threshold, 0, 1);
    let mz: i32 = select_i32(f.miss_is_zero && !f.mfb_is_zero, 1, 0);
    let mna: i32 = select_i32(f.miss_is_na && !f.mfb_is_na, 1, 0);
    let mdt: i32 = select_i32((f.miss_is_zero || f.miss_is_na) && f.default_left, 0, 1);
    let ftm: i32 = select_i32(
        (f.miss_is_na && f.mfb_is_na) || (f.miss_is_zero && f.mfb_is_zero),
        1,
        0,
    );
    let cond_missing_zero = mz == 1 && bin == t_zero;
    let cond_missing_na = mna == 1 && bin == max_bin;
    let route: i32 = if f.min_is_max {
        let max_bin_target: i32 = select_i32(max_bin <= th, 0, 1);
        let max_route: i32 = select_i32(mna == 1, mdt, max_bin_target);
        let nonmax_route: i32 = select_i32(ftm == 1, mdt, default_target);
        let base: i32 = select_i32(bin == max_bin, max_route, nonmax_route);
        select_i32(cond_missing_zero, mdt, base)
    } else {
        let in_range = bin >= min_bin && bin <= max_bin;
        let inrange_route: i32 = select_i32(bin > th, 1, 0);
        let oor_route: i32 = select_i32(ftm == 1, mdt, default_target);
        let base: i32 = select_i32(in_range, inrange_route, oor_route);
        select_i32(cond_missing_zero || cond_missing_na, mdt, base)
    };
    if route == 0 {
        1
    } else {
        0
    }
}

/// Whether bit `pos` is set; bits past the last block are clear.
pub open spec fn in_bitset(bits: Seq<u32>, pos: int) -> bool {
    0 <= pos && pos / 32 < bits.len() && (bits[pos / 32] >> ((pos % 32) as u32)) & 1u32 == 1u32
}

/// Whether a row with bin `bin` goes left under a categorical split: a stored bin by its
/// membership in the category set, any other by that of the most frequent bin.
pub open spec fn spec_route_left_categorical(
    bin: int,
    min_bin: int,
    max_bin: int,
    most_freq_bin: int,
    bits: Seq<u32>,
) -> bool {
    if min_bin <= bin <= max_bin {
        in_bitset(bits, bin - min_bin + mfb_shift(most_freq_bin))
    } else {
        most_freq_bin > 0 && in_bitset(bits, most_freq_bin)
    }
}

/// The position that a stored bin is looked up at is in range.
pub open spec fn category_position_fits(bin: i32, min_bin: i32, max_bin: i32, most_freq_bin: i32) -> bool {
    min_bin <= bin <= max_bin ==> bin - min_bin + mfb_shift(most_freq_bin as int) <= i32::MAX
}

/// The left marks of a sequence of bins under a categorical split.
pub open spec fn categorical_marks(
    bins: Seq<u32>,
    min_bin: u32,
    max_bin: u32,
    most_freq_bin: u32,
    bits: Seq<u32>,
) -> Seq<bool> {
    Seq::new(
        bins.len(),
        |i: int|
            spec_route_left_categorical(
                bins[i] as i32 as int,
                min_bin as i32 as int,
                max_bin as i32 as int,
                most_freq_bin as i32 as int,
                bits,
            ),
    )
}

fn bit_at(bits: &[u32], pos: i32) -> (r: bool)
    ensures
        r == in_bitset(bits@, pos as int),
{
    if pos < 0 {
        return false;
    }
    let w: usize = (pos as usize) / 32;
    if w >= bits.len() {
        return false;
    }
    let word: u32 = bits[w];
    let offset: u32 = (pos as u32) % 32;
    let bit: u32 = (word >> offset) & 1;
    assert(bit == 0 || bit == 1) by (bit_vector)
        requires
            bit == (word >> offset) & 1,
    ;
    bit != 0
}

/// The bit at `pos` of the first `n` blocks, as the mark kernel reads it: the load stays
/// inside the bitset and is masked out where `pos` is past it.
pub fn find_in_bitset(bits: &[u32], n: u32, pos: u32) -> (member: u32)
    requires
        bits@.len() > 0,
        n == bits@.len(),
    ensures
        member == (if in_bitset(bits@, pos as int) { 1u32 } else { 0u32 }),
{
    let word: u32 = pos / 32;
    let safe_word: u32 = if word >= n {
        0
    } else {
        word
    };
    let block: u32 = bits[safe_word as usize];
    let offset: u32 = pos % 32;
    let raw: u32 = (block >> offset) & 1u32;
    assert(raw == 0 || raw == 1) by (bit_vector)
        requires
            raw == (block >> offset) & 1,
    ;
    if word >= n {
        0
    } else {
        raw
    }
}

/// The categorical route decision in its branching form.
pub fn route_left_categorical_host(
    bin: i32,
    min_bin: i32,
    max_bin: i32,
    most_freq_bin: i32,
    bitset: &[u32],
) -> (left: bool)
    requires
        category_position_fits(bin, min_bin, max_bin, most_freq_bin),
    ensures
        left == spec_route_left_categorical(
            bin as int,
            min_bin as int,
            max_bin as int,
            most_freq_bin as int,
            bitset@,
        ),
{
    let offset: i32 = if most_freq_bin == 0 {
        1
    } else {
        0
    };
    if bin < min_bin || bin > max_bin {
        most_freq_bin > 0 && bit_at(bitset, most_freq_bin)
    } else {
        bit_at(bitset, bin - min_bin + offset)
    }
}

/// The categorical route decision as the mark kernel takes it: both look-ups are made and one
/// is selected. Returns 1 for left and 0 for right.
pub fn route_to_left_categorical(
    bin: i32,
    min_bin: i32,
    max_bin: i32,
    most_freq_bin: i32,
    bitset: &[u32],
    bitset_len: u32,
) -> (mark: u32)
    requires
        bitset@.len() > 0,
        bitset_len == bitset@.len(),
        category_position_fits(bin, min_bin, max_bin, most_freq_bin),
    ensures
        mark == (if spec_route_left_categorical(
            bin as int,
            min_bin as int,
            max_bin as int,
            most_freq_bin as int,
            bitset@,
        ) { 1u32 } else { 0u32 }),
{
    let offset: i32 = select_i32(most_freq_bin == 0, 1, 0);
    let mfb_pos: u32 = select_i32(most_freq_bin > 0, most_freq_bin, 0) as u32;
    let mfb_member: u32 = find_in_bitset(bitset, bitset_len, mfb_pos);
    let default_target: i32 = select_i32(most_freq_bin > 0 && mfb_member == 1, 0, 1);
    let in_range = bin >= min_bin && bin <= max_bin;
    let safe_pos: u32 = if in_range {
        (bin - min_bin + offset) as u32
    } else {
        0
    };
    let member: u32 = find_in_bitset(bitset, bitset_len, safe_pos);
    let inrange_route: i32 = select_i32(member == 1, 0, 1);
    let route: i32 = select_i32(in_range, inrange_route, default_target);
    if route == 0 {
        1
    } else {
        0
    }
}

/// The fault of the first bin, from row `from` on, that is not below `num_bin`.
pub open spec fn first_bad_bin(bins: Seq<u32>, num_bin: u32, from: int) -> Option<Fault>
    decreases bins.len() - from,
{
    if from >= bins.len() {
        None
    } else if bins[from] >= num_bin {
        Some(Fault::BinIndexOutOfRange { row: from as nat, bin: bins[from], num_bin })
    } else {
        first_bad_bin(bins, num_bin, from + 1)
    }
}

/// No fault means that every bin is in range.
pub proof fn no_bad_bin(bins: Seq<u32>, num_bin: u32, from: int)
    requires
        0 <= from,
    ensures
        first_bad_bin(bins, num_bin, from) is None <==> (forall|i: int|
            from <= i < bins.len() ==> #[trigger] bins[i] < num_bin),
    decreases bins.len() - from,
{
    if from < bins.len() {
        no_bad_bin(bins, num_bin, from + 1);
    }
}

/// The text of the fault of an empty feature.
pub open spec fn empty_feature_text() -> Seq<char> {
    "data_partition: num_bin must be > 0"@
}

/// The text of the fault of a threshold that is no bin of the feature.
pub open spec fn threshold_text(threshold: u32, num_bin: u32) -> Seq<char> {
    "data_partition: threshold "@ + text::decimal(threshold as nat) + " >= num_bin "@ + text::decimal(
        num_bin as nat,
    )
}

/// The fault of a numeric split's scalars.
pub open spec fn threshold_fault(num_bin: u32, threshold: u32) -> Option<Fault> {
    if num_bin == 0 {
        Some(Fault::Runtime(empty_feature_text()))
    } else if threshold >= num_bin {
        Some(Fault::Runtime(threshold_text(threshold, num_bin)))
    } else {
        None
    }
}

/// The fault of a numeric partition of `rows` rows whose bins are `bins`.
pub open spec fn partition_fault(bins: Seq<u32>, num_bin: u32, threshold: u32, rows: nat) -> Option<Fault> {
    if threshold_fault(num_bin, threshold) is Some {
        threshold_fault(num_bin, threshold)
    } else if rows != bins.len() {
        Some(Fault::LengthMismatch { expected: bins.len(), actual: rows })
    } else {
        first_bad_bin(bins, num_bin, 0)
    }
}

/// The fault of a categorical partition of `rows` rows whose bins are `bins`.
pub open spec fn categorical_fault(bins: Seq<u32>, num_bin: u32, rows: nat) -> Option<Fault> {
    if num_bin == 0 {
        Some(Fault::Runtime("data_partition(cat): num_bin must be > 0"@))
    } else if rows != bins.len() {
        Some(Fault::LengthMismatch { expected: bins.len(), actual: rows })
    } else {
        first_bad_bin(bins, num_bin, 0)
    }
}

/// The bins of the given rows of a column.
pub open spec fn gathered(column: Seq<u32>, rows: Seq<u32>) -> Seq<u32> {
    Seq::new(rows.len(), |i: int| column[rows[i] as int])
}

/// A partition of `rows` by `marks`: the reordered rows, and how many of them are left rows.
pub open spec fn is_partition(r: Result<(Vec<u32>, usize), ComputeError>, rows: Seq<u32>, marks: Seq<bool>) -> bool {
    r matches Ok(p) ==> p.0@ == stable::stable_partition(rows, marks) && p.1 == stable::tally(marks, true)
}

/// Check a numeric split's scalars.
pub fn check_threshold(num_bin: u32, threshold: u32) -> (r: Result<(), ComputeError>)
    ensures
        error::fails_as(r, threshold_fault(num_bin, threshold)),
{
    if num_bin == 0 {
        return Err(error::runtime_error("data_partition: num_bin must be > 0"));
    }
    if threshold >= num_bin {
        let mut detail: String = "data_partition: threshold ".to_owned();
        text::push_decimal(&mut detail, threshold as u64);
        detail.append(" >= num_bin ");
        text::push_decimal(&mut detail, num_bin as u64);
        return Err(ComputeError::Runtime { detail });
    }
    Ok(())
}

/// Check that every bin of a column is below `num_bin`.
pub fn check_bins(bins: &BinColumn, num_bin: u32) -> (r: Result<(), ComputeError>)
    ensures
        error::fails_as(r, first_bad_bin(bins@, num_bin, 0)),
{
    let n: usize = bins.len();
    let mut i: usize = 0;
    while i < n
        invariant
            i <= n,
            n == bins@.len(),
            first_bad_bin(bins@, num_bin, 0) == first_bad_bin(bins@, num_bin, i as int),
        decreases n - i,
    {
        let b: u32 = bins.bin(i);
        if b >= num_bin {
            return Err(ComputeError::BinIndexOutOfRange { row: i, bin: b, num_bin });
        }
        i += 1;
    }
    Ok(())
}

/// Check the inputs of a numeric partition.
pub fn validate_partition(
    bins: &BinColumn,
    num_bin: u32,
    threshold: u32,
    data_indices: &[u32],
) -> (r: Result<(), ComputeError>)
    ensures
        error::fails_as(r, partition_fault(bins@, num_bin, threshold, data_indices@.len())),
{
    check_threshold(num_bin, threshold)?;
    if data_indices.len() != bins.len() {
        return Err(
            ComputeError::LengthMismatch { expected: bins.len(), actual: data_indices.len() },
        );
    }
    check_bins(bins, num_bin)
}

/// Check the inputs of a categorical partition.
pub fn validate_categorical(bins: &BinColumn, num_bin: u32, data_indices: &[u32]) -> (r: Result<
    (),
    ComputeError,
>)
    ensures
        error::fails_as(r, categorical_fault(bins@, num_bin, data_indices@.len())),
{
    if num_bin == 0 {
        return Err(error::runtime_error("data_partition(cat): num_bin must be > 0"));
    }
    if data_indices.len() != bins.len() {
        return Err(
            ComputeError::LengthMismatch { expected: bins.len(), actual: data_indices.len() },
        );
    }
    check_bins(bins, num_bin)
}

/// Left rows followed by right rows.
fn join_sides(left: Vec<u32>, right: Vec<u32>) -> (joined: (Vec<u32>, usize))
    ensures
        joined.0@ == left@ + right@,
        joined.1 == left@.len(),
{
    let split_point: usize = left.len();
    let mut order = left;
    let mut right = right;
    order.append(&mut right);
    (order, split_point)
}

/// The stable partition of a leaf's rows by a numeric split. `bins` holds the bin of each of
/// the rows `data_indices`. Returns the reordered rows and the number of left rows.
pub fn partition_leaf_stable(
    bins: &BinColumn,
    data_indices: &[u32],
    num_bin: u32,
    min_bin: u32,
    max_bin: u32,
    default_bin: u32,
    most_freq_bin: u32,
    missing_type: u8,
    default_left: bool,
    threshold: u32,
) -> (r: Result<(Vec<u32>, usize), ComputeError>)
    requires
        partition_fault(bins@, num_bin, threshold, data_indices@.len()) is None ==> (NumericRoute {
            min_bin,
            max_bin,
            default_bin,
            most_freq_bin,
            missing_type,
            default_left,
            threshold,
        }).sums_fit(data_indices@.len()),
    ensures
        error::fails_as(r, partition_fault(bins@, num_bin, threshold, data_indices@.len())),
        is_partition(
            r,
            data_indices@,
            (NumericRoute {
                min_bin,
                max_bin,
                default_bin,
                most_freq_bin,
                missing_type,
                default_left,
                threshold,
            }).marks(bins@),
        ),
{
    validate_partition(bins, num_bin, threshold, data_indices)?;
    let f = RouteFlags::derive(
        min_bin,
        max_bin,
        default_bin,
        most_freq_bin,
        missing_type,
        default_left,
    );
    let ghost route = NumericRoute {
        min_bin,
        max_bin,
        default_bin,
        most_freq_bin,
        missing_type,
        default_left,
        threshold,
    };
    let ghost marks = route.marks(bins@);
    assert(f == RouteFlags::spec_derive(route));
    let n: usize = data_indices.len();
    let mut left: Vec<u32> = Vec::with_capacity(n);
    let mut right: Vec<u32> = Vec::new();
    let mut i: usize = 0;
    while i < n
        invariant
            i <= n,
            n == data_indices@.len(),
            n == bins@.len(),
            route == (NumericRoute {
                min_bin,
                max_bin,
                default_bin,
                most_freq_bin,
                missing_type,
                default_left,
                threshold,
            }),
            route.sums_fit(n as nat),
            f == RouteFlags::spec_derive(route),
            marks == route.marks(bins@),
            left@ == stable::chosen(data_indices@.take(i as int), marks.take(i as int), true),
            right@ == stable::chosen(data_indices@.take(i as int), marks.take(i as int), false),
        decreases n - i,
    {
        let di: u32 = data_indices[i];
        proof {
            stable::chosen_extends(data_indices@, marks, i as int, true);
            stable::chosen_extends(data_indices@, marks, i as int, false);
        }
        if route_left_host(
            bins.bin(i) as i32,
            min_bin as i32,
            max_bin as i32,
            default_bin as i32,
            most_freq_bin as i32,
            threshold as i32,
            f,
        ) {
            left.push(di);
        } else {
            right.push(di);
        }
        i += 1;
    }
    proof {
        assert(data_indices@.take(n as int) =~= data_indices@);
        assert(marks.take(n as int) =~= marks);
        stable::chosen_len(data_indices@, marks, true);
    }
    Ok(join_sides(left, right))
}

/// Every row that is read before the first bad bin is a row of the column.
pub open spec fn rows_readable(column: Seq<u32>, rows: Seq<u32>, num_bin: u32, from: int) -> bool
    decreases rows.len() - from,
{
    from >= rows.len() || (rows[from] < column.len() && (column[rows[from] as int] >= num_bin
        || rows_readable(column, rows, num_bin, from + 1)))
}

/// The fault of a numeric partition that reads its bins through the rows.
pub open spec fn fused_fault(column: Seq<u32>, rows: Seq<u32>, num_bin: u32, threshold: u32) -> Option<Fault> {
    if threshold_fault(num_bin, threshold) is Some {
        threshold_fault(num_bin, threshold)
    } else {
        first_bad_bin(gathered(column, rows), num_bin, 0)
    }
}

/// Two partitions of the same rows that are refused for the same faults and route by the same marks
/// have one outcome: the same order, the same split point, or the same fault. This holds of the
/// host and the device, and of a narrow and a wide column.
pub proof fn partition_is_determined(
    a: Result<(Vec<u32>, usize), ComputeError>,
    b: Result<(Vec<u32>, usize), ComputeError>,
    rows: Seq<u32>,
    marks: Seq<bool>,
    fault: Option<Fault>,
)
    requires
        error::fails_as(a, fault),
        error::fails_as(b, fault),
        is_partition(a, rows, marks),
        is_partition(b, rows, marks),
    ensures
        match (a, b) {
            (Ok(x), Ok(y)) => x.0@ == y.0@ && x.1 == y.1,
            (Err(x), Err(y)) => x@ == y@,
            _ => false,
        },
{
}

/// Reading the bins through the rows is refused exactly where the gathered bins are.
pub proof fn fused_fault_is_gathered_fault(column: Seq<u32>, rows: Seq<u32>, num_bin: u32, threshold: u32)
    ensures
        fused_fault(column, rows, num_bin, threshold) == partition_fault(
            gathered(column, rows),
            num_bin,
            threshold,
            rows.len(),
        ),
{
}

/// How many routes a partition that reads its bins through the rows may decide: none where
/// the first row already has a bad bin.
pub open spec fn fused_routes(column: Seq<u32>, rows: Seq<u32>, num_bin: u32) -> nat {
    if rows.len() > 0 && column[rows[0] as int] >= num_bin {
        0
    } else {
        rows.len()
    }
}

/// The stable partition of a leaf's rows by a numeric split, reading each row's bin out of
/// the whole feature column in the same pass.
pub fn partition_leaf_stable_fused(
    bins: &BinColumn,
    data_indices: &[u32],
    num_bin: u32,
    min_bin: u32,
    max_bin: u32,
    default_bin: u32,
    most_freq_bin: u32,
    missing_type: u8,
    default_left: bool,
    threshold: u32,
) -> (r: Result<(Vec<u32>, usize), ComputeError>)
    requires
        threshold_fault(num_bin, threshold) is None ==> rows_readable(bins@, data_indices@, num_bin, 0),
        threshold_fault(num_bin, threshold) is None ==> (NumericRoute {
            min_bin,
            max_bin,
            default_bin,
            most_freq_bin,
            missing_type,
            default_left,
            threshold,
        }).sums_fit(fused_routes(bins@, data_indices@, num_bin)),
    ensures
        error::fails_as(r, fused_fault(bins@, data_indices@, num_bin, threshold)),
        is_partition(
            r,
            data_indices@,
            (NumericRoute {
                min_bin,
                max_bin,
                default_bin,
                most_freq_bin,
                missing_type,
                default_left,
                threshold,
            }).marks(gathered(bins@, data_indices@)),
        ),
{
    check_threshold(num_bin, threshold)?;
    let f = RouteFlags::derive(
        min_bin,
        max_bin,
        default_bin,
        most_freq_bin,
        missing_type,
        default_left,
    );
    let ghost route = NumericRoute {
        min_bin,
        max_bin,
        default_bin,
        most_freq_bin,
        missing_type,
        default_left,
        threshold,
    };
    let ghost sub = gathered(bins@, data_indices@);
    let ghost marks = route.marks(sub);
    assert(f == RouteFlags::spec_derive(route));
    let n: usize = data_indices.len();
    let mut left: Vec<u32> = Vec::with_capacity(n);
    let mut right: Vec<u32> = Vec::new();
    let mut i: usize = 0;
    while i < n
        invariant
            i <= n,
            n == data_indices@.len(),
            sub == gathered(bins@, data_indices@),
            route == (NumericRoute {
                min_bin,
                max_bin,
                default_bin,
                most_freq_bin,
                missing_type,
                default_left,
                threshold,
            }),
            threshold_fault(num_bin, threshold) is None,
            route.sums_fit(fused_routes(bins@, data_indices@, num_bin)),
            i > 0 ==> sub[0] < num_bin,
            rows_readable(bins@, data_indices@, num_bin, i as int),
            first_bad_bin(sub, num_bin, 0) == first_bad_bin(sub, num_bin, i as int),
            f == RouteFlags::spec_derive(route),
            marks == route.marks(sub),
            left@ == stable::chosen(data_indices@.take(i as int), marks.take(i as int), true),
            right@ == stable::chosen(data_indices@.take(i as int), marks.take(i as int), false),
        decreases n - i,
    {
        let di: u32 = data_indices[i];
        let bin: u32 = bins.bin(di as usize);
        if bin >= num_bin {
            return Err(ComputeError::BinIndexOutOfRange { row: i, bin, num_bin });
        }
        proof {
            stable::chosen_extends(data_indices@, marks, i as int, true);
            stable::chosen_extends(data_indices@, marks, i as int, false);
        }
        if route_left_host(
            bin as i32,
            min_bin as i32,
            max_bin as i32,
            default_bin as i32,
            most_freq_bin as i32,
            threshold as i32,
            f,
        ) {
            left.push(di);
        } else {
            right.push(di);
        }
        i += 1;
    }
    proof {
        assert(data_indices@.take(n as int) =~= data_indices@);
        assert(marks.take(n as int) =~= marks);
        stable::chosen_len(data_indices@, marks, true);
    }
    Ok(join_sides(left, right))
}

/// The stable partition of a leaf's rows by membership in a category set.
pub fn partition_categorical_stable(
    bins: &BinColumn,
    data_indices: &[u32],
    num_bin: u32,
    min_bin: u32,
    max_bin: u32,
    most_freq_bin: u32,
    bitset: &[u32],
) -> (r: Result<(Vec<u32>, usize), ComputeError>)
    requires
        categorical_fault(bins@, num_bin, data_indices@.len()) is None ==> forall|i: int|
            0 <= i < bins@.len() ==> category_position_fits(
                #[trigger] bins@[i] as i32,
                min_bin as i32,
                max_bin as i32,
                most_freq_bin as i32,
            ),
    ensures
        error::fails_as(r, categorical_fault(bins@, num_bin, data_indices@.len())),
        is_partition(
            r,
            data_indices@,
            categorical_marks(bins@, min_bin, max_bin, most_freq_bin, bitset@),
        ),
{
    validate_categorical(bins, num_bin, data_indices)?;
    let ghost marks = categorical_marks(bins@, min_bin, max_bin, most_freq_bin, bitset@);
    let n: usize = data_indices.len();
    let mut left: Vec<u32> = Vec::with_capacity(n);
    let mut right: Vec<u32> = Vec::new();
    let mut i: usize = 0;
    while i < n
        invariant
            i <= n,
            n == data_indices@.len(),
            n == bins@.len(),
            marks == categorical_marks(bins@, min_bin, max_bin, most_freq_bin, bitset@),
            forall|k: int|
                0 <= k < bins@.len() ==> category_position_fits(
                    #[trigger] bins@[k] as i32,
                    min_bin as i32,
                    max_bin as i32,
                    most_freq_bin as i32,
                ),
            left@ == stable::chosen(data_indices@.take(i as int), marks.take(i as int), true),
            right@ == stable::chosen(data_indices@.take(i as int), marks.take(i as int), false),
        decreases n - i,
    {
        let di: u32 = data_indices[i];
        proof {
            stable::chosen_extends(data_indices@, marks, i as int, true);
            stable::chosen_extends(data_indices@, marks, i as int, false);
        }
        if route_left_categorical_host(
            bins.bin(i) as i32,
            min_bin as i32,
            max_bin as i32,
            most_freq_bin as i32,
            bitset,
        ) {
            left.push(di);
        } else {
            right.push(di);
        }
        i += 1;
    }
    proof {
        assert(data_indices@.take(n as int) =~= data_indices@);
        assert(marks.take(n as int) =~= marks);
        stable::chosen_len(data_indices@, marks, true);
    }
    Ok(join_sides(left, right))
}

/// The scan block for `n` rows: at least 256 rows, and large enough that 1024 blocks cover
/// them.
pub fn scan_block_size(n: usize) -> (size: u32)
    ensures
        size == (if ((n + 1023) / 1024) as u32 > 256 { ((n + 1023) / 1024) as u32 } else { 256 }),
{
    let blocks: usize = n / 1024 + (if n % 1024 == 0 {
        0
    } else {
        1
    });
    let wanted: u32 = blocks as u32;
    if wanted > 256 {
        wanted
    } else {
        256
    }
}

/// The scan blocks cover all rows, and there are at most 1024 of them.
pub proof fn scan_blocks_cover(n: nat, size: nat)
    requires
        size == (if (n + 1023) / 1024 > 256 { (n + 1023) / 1024 } else { 256nat }),
    ensures
        size >= 256,
        n <= 1024 * size,
        (n + size - 1) / size as int <= 1024,
{
    assert(n <= 1024 * size);
    assert((n + size - 1) / size as int <= 1024) by (nonlinear_arith)
        requires
            n <= 1024 * size,
            size >= 256,
    ;
}

/// Marks as the bits that a mark kernel writes.
pub open spec fn mark_bits(marks: Seq<bool>) -> Seq<u32> {
    Seq::new(marks.len(), |i: int| if marks[i] { 1u32 } else { 0u32 })
}

/// The marks that a sequence of bits stands for.
pub open spec fn bit_marks(bits: Seq<u32>) -> Seq<bool> {
    Seq::new(bits.len(), |i: int| bits[i] == 1)
}

/// Reading back written marks gives the marks.
pub proof fn bit_marks_of_mark_bits(marks: Seq<bool>)
    ensures
        bit_marks(mark_bits(marks)) == marks,
{
    assert(bit_marks(mark_bits(marks)) =~= marks);
}

/// The exclusive prefix sums of a sequence of marks: how many left rows come before each row.
pub fn prefix_sum_exclusive(to_left: &[u32]) -> (excl: Vec<u32>)
    requires
        to_left@.len() <= u32::MAX,
        forall|i: int| 0 <= i < to_left@.len() ==> #[trigger] to_left@[i] <= 1,
    ensures
        excl@.len() == to_left@.len(),
        forall|i: int|
            0 <= i < excl@.len() ==> #[trigger] excl@[i] == stable::tally(bit_marks(to_left@).take(i), true),
{
    let ghost marks = bit_marks(to_left@);
    let n: usize = to_left.len();
    let mut excl: Vec<u32> = Vec::with_capacity(n);
    let mut running: u32 = 0;
    let mut i: usize = 0;
    while i < n
        invariant
            i <= n,
            n == to_left@.len(),
            n <= u32::MAX,
            marks == bit_marks(to_left@),
            forall|k: int| 0 <= k < to_left@.len() ==> #[trigger] to_left@[k] <= 1,
            running == stable::tally(marks.take(i as int), true),
            running <= i,
            excl@.len() == i,
            forall|k: int|
                0 <= k < i ==> #[trigger] excl@[k] == stable::tally(marks.take(k), true),
        decreases n - i,
    {
        proof {
            stable::tally_extends(marks, i as int, true);
        }
        excl.push(running);
        running = running + to_left[i];
        i += 1;
    }
    excl
}

/// Scatter a leaf's rows by their marks and ranks: a left row goes to its rank, a right row
/// past all left rows to its own rank.
pub fn split_inner_scatter(
    data_indices: &[u32],
    to_left: &[u32],
    excl_left_rank: &[u32],
    to_left_total: u32,
) -> (out: Vec<u32>)
    requires
        data_indices@.len() == to_left@.len(),
        excl_left_rank@.len() == to_left@.len(),
        to_left_total == stable::tally(bit_marks(to_left@), true),
        forall|i: int|
            0 <= i < to_left@.len() ==> #[trigger] excl_left_rank@[i] == stable::tally(
                bit_marks(to_left@).take(i),
                true,
            ),
    ensures
        out@ == stable::stable_partition(data_indices@, bit_marks(to_left@)),
{
    let ghost marks = bit_marks(to_left@);
    let n: usize = data_indices.len();
    let mut out: Vec<u32> = vec![0u32; n];
    let mut i: usize = 0;
    while i < n
        invariant
            i <= n,
            n == data_indices@.len(),
            n == to_left@.len(),
            n == excl_left_rank@.len(),
            out@.len() == n,
            marks == bit_marks(to_left@),
            to_left_total == stable::tally(marks, true),
            forall|k: int|
                0 <= k < to_left@.len() ==> #[trigger] excl_left_rank@[k] == stable::tally(
                    marks.take(k),
                    true,
                ),
            forall|k: int|
                0 <= k < i ==> out@[#[trigger] stable::destination(marks, k)] == data_indices@[k],
        decreases n - i,
    {
        let rank: usize = excl_left_rank[i] as usize;
        proof {
            stable::destination_holds_item(data_indices@, marks, i as int);
            stable::prefix_tallies_sum(marks, i as int);
        }
        let dest: usize = if to_left[i] == 1 {
            rank
        } else {
            to_left_total as usize + (i - rank)
        };
        assert(dest == stable::destination(marks, i as int));
        assert forall|k: int| 0 <= k < i implies stable::destination(marks, k) != dest && 0
            <= #[trigger] stable::destination(marks, k) < n by {
            stable::destinations_are_distinct(marks, k, i as int);
            stable::destination_holds_item(data_indices@, marks, k);
        }
        out.set(dest, data_indices[i]);
        i += 1;
    }
    proof {
        stable::scatter_is_stable(data_indices@, marks, out@);
    }
    out
}

/// The stable partition of a leaf's rows by given marks: prefix sums, then a scatter.
pub fn scatter_marked(data_indices: &[u32], to_left: &[u32]) -> (r: (Vec<u32>, usize))
    requires
        data_indices@.len() == to_left@.len(),
        to_left@.len() <= u32::MAX,
        forall|i: int| 0 <= i < to_left@.len() ==> #[trigger] to_left@[i] <= 1,
    ensures
        r.0@ == stable::stable_partition(data_indices@, bit_marks(to_left@)),
        r.1 == stable::tally(bit_marks(to_left@), true),
{
    let n: usize = data_indices.len();
    let ghost marks = bit_marks(to_left@);
    if n == 0 {
        let none: Vec<u32> = Vec::new();
        assert(none@ =~= stable::stable_partition(data_indices@, marks));
        return (none, 0);
    }
    let excl = prefix_sum_exclusive(to_left);
    proof {
        stable::tally_extends(marks, n - 1, true);
        assert(marks.take(n as int) =~= marks);
        stable::tallies_sum(marks);
    }
    let to_left_total: u32 = excl[n - 1] + to_left[n - 1];
    let out = split_inner_scatter(data_indices, to_left, excl.as_slice(), to_left_total);
    (out, to_left_total as usize)
}

/// Mark each row of a leaf by a numeric split: 1 for left, 0 for right.
pub fn mark_numeric(
    bins: &BinColumn,
    min_bin: u32,
    max_bin: u32,
    default_bin: u32,
    most_freq_bin: u32,
    threshold: u32,
    f: RouteFlags,
) -> (to_left: Vec<u32>)
    requires
        bins@.len() > 0 ==> route_sums_fit(
            min_bin as i32,
            default_bin as i32,
            most_freq_bin as i32,
            threshold as i32,
        ),
        f.min_is_max ==> min_bin == max_bin,
    ensures
        to_left@ == mark_bits(
            Seq::new(
                bins@.len(),
                |i: int|
                    spec_route_left(
                        bins@[i] as i32 as int,
                        min_bin as i32 as int,
                        max_bin as i32 as int,
                        default_bin as i32 as int,
                        most_freq_bin as i32 as int,
                        threshold as i32 as int,
                        f,
                    ),
            ),
        ),
{
    let n: usize = bins.len();
    let mut to_left: Vec<u32> = Vec::with_capacity(n);
    let mut i: usize = 0;
    while i < n
        invariant
            i <= n,
            n == bins@.len(),
            n > 0 ==> route_sums_fit(
                min_bin as i32,
                default_bin as i32,
                most_freq_bin as i32,
                threshold as i32,
            ),
            f.min_is_max ==> min_bin == max_bin,
            to_left@.len() == i,
            forall|k: int|
                0 <= k < i ==> #[trigger] to_left@[k] == (if spec_route_left(
                    bins@[k] as i32 as int,
                    min_bin as i32 as int,
                    max_bin as i32 as int,
                    default_bin as i32 as int,
                    most_freq_bin as i32 as int,
                    threshold as i32 as int,
                    f,
                ) { 1u32 } else { 0u32 }),
        decreases n - i,
    {
        to_left.push(
            route_to_left(
                bins.bin(i) as i32,
                min_bin as i32,
                max_bin as i32,
                default_bin as i32,
                most_freq_bin as i32,
                threshold as i32,
                f,
            ),
        );
        i += 1;
    }
    to_left
}

/// Mark each row of a leaf by a categorical split: 1 for left, 0 for right.
pub fn mark_categorical(
    bins: &BinColumn,
    min_bin: u32,
    max_bin: u32,
    most_freq_bin: u32,
    bitset: &[u32],
) -> (to_left: Vec<u32>)
    requires
        0 < bitset@.len() <= u32::MAX,
        forall|i: int|
            0 <= i < bins@.len() ==> category_position_fits(
                #[trigger] bins@[i] as i32,
                min_bin as i32,
                max_bin as i32,
                most_freq_bin as i32,
            ),
    ensures
        to_left@ == mark_bits(categorical_marks(bins@, min_bin, max_bin, most_freq_bin, bitset@)),
{
    let n: usize = bins.len();
    let ghost marks = categorical_marks(bins@, min_bin, max_bin, most_freq_bin, bitset@);
    let bitset_len: u32 = bitset.len() as u32;
    let mut to_left: Vec<u32> = Vec::with_capacity(n);
    let mut i: usize = 0;
    while i < n
        invariant
            i <= n,
            n == bins@.len(),
            bitset_len == bitset@.len(),
            bitset_len > 0,
            marks == categorical_marks(bins@, min_bin, max_bin, most_freq_bin, bitset@),
            forall|k: int|
                0 <= k < bins@.len() ==> category_position_fits(
                    #[trigger] bins@[k] as i32,
                    min_bin as i32,
                    max_bin as i32,
                    most_freq_bin as i32,
                ),
            to_left@.len() == i,
            forall|k: int|
                0 <= k < i ==> #[trigger] to_left@[k] == (if marks[k] { 1u32 } else { 0u32 }),
        decreases n - i,
    {
        to_left.push(
            route_to_left_categorical(
                bins.bin(i) as i32,
                min_bin as i32,
                max_bin as i32,
                most_freq_bin as i32,
                bitset,
                bitset_len,
            ),
        );
        i += 1;
    }
    to_left
}

/// The numeric partition by the kernels: mark, prefix sums, scatter. It agrees with
/// [`partition_leaf_stable`] on every input.
pub fn partition_on_device(
    bins: &BinColumn,
    data_indices: &[u32],
    num_bin: u32,
    min_bin: u32,
    max_bin: u32,
    default_bin: u32,
    most_freq_bin: u32,
    missing_type: u8,
    default_left: bool,
    threshold: u32,
) -> (r: Result<(Vec<u32>, usize), ComputeError>)
    requires
        data_indices@.len() <= u32::MAX,
        partition_fault(bins@, num_bin, threshold, data_indices@.len()) is None && data_indices@.len() > 0
            ==> (NumericRoute {
            min_bin,
            max_bin,
            default_bin,
            most_freq_bin,
            missing_type,
            default_left,
            threshold,
        }).sums_fit(data_indices@.len()),
    ensures
        error::fails_as(r, partition_fault(bins@, num_bin, threshold, data_indices@.len())),
        is_partition(
            r,
            data_indices@,
            (NumericRoute {
                min_bin,
                max_bin,
                default_bin,
                most_freq_bin,
                missing_type,
                default_left,
                threshold,
            }).marks(bins@),
        ),
{
    validate_partition(bins, num_bin, threshold, data_indices)?;
    let ghost route = NumericRoute {
        min_bin,
        max_bin,
        default_bin,
        most_freq_bin,
        missing_type,
        default_left,
        threshold,
    };
    let n: usize = data_indices.len();
    if n == 0 {
        let none: Vec<u32> = Vec::new();
        assert(none@ =~= stable::stable_partition(data_indices@, route.marks(bins@)));
        return Ok((none, 0));
    }
    let f = RouteFlags::derive(
        min_bin,
        max_bin,
        default_bin,
        most_freq_bin,
        missing_type,
        default_left,
    );
    assert(f == RouteFlags::spec_derive(route));
    let to_left = mark_numeric(bins, min_bin, max_bin, default_bin, most_freq_bin, threshold, f);
    proof {
        assert(to_left@ =~= mark_bits(route.marks(bins@)));
        bit_marks_of_mark_bits(route.marks(bins@));
    }
    Ok(scatter_marked(data_indices, to_left.as_slice()))
}

/// The fault of a categorical partition by the kernels, which need at least one bitset block.
pub open spec fn categorical_device_fault(bins: Seq<u32>, num_bin: u32, rows: nat, blocks: nat) -> Option<Fault> {
    if categorical_fault(bins, num_bin, rows) is Some {
        categorical_fault(bins, num_bin, rows)
    } else if rows > 0 && blocks == 0 {
        Some(Fault::Runtime("data_partition(cat): bitset must be non-empty"@))
    } else {
        None
    }
}

/// The categorical partition by the kernels: mark, prefix sums, scatter. It agrees with
/// [`partition_categorical_stable`] wherever the bitset has a block.
pub fn partition_categorical_on_device(
    bins: &BinColumn,
    data_indices: &[u32],
    num_bin: u32,
    min_bin: u32,
    max_bin: u32,
    most_freq_bin: u32,
    bitset: &[u32],
) -> (r: Result<(Vec<u32>, usize), ComputeError>)
    requires
        data_indices@.len() <= u32::MAX,
        bitset@.len() <= u32::MAX,
        categorical_device_fault(bins@, num_bin, data_indices@.len(), bitset@.len()) is None
            ==> forall|i: int|
            0 <= i < bins@.len() ==> category_position_fits(
                #[trigger] bins@[i] as i32,
                min_bin as i32,
                max_bin as i32,
                most_freq_bin as i32,
            ),
    ensures
        error::fails_as(
            r,
            categorical_device_fault(bins@, num_bin, data_indices@.len(), bitset@.len()),
        ),
        is_partition(
            r,
            data_indices@,
            categorical_marks(bins@, min_bin, max_bin, most_freq_bin, bitset@),
        ),
{
    validate_categorical(bins, num_bin, data_indices)?;
    let ghost marks = categorical_marks(bins@, min_bin, max_bin, most_freq_bin, bitset@);
    let n: usize = data_indices.len();
    if n == 0 {
        let none: Vec<u32> = Vec::new();
        assert(none@ =~= stable::stable_partition(data_indices@, marks));
        return Ok((none, 0));
    }
    if bitset.len() == 0 {
        return Err(error::runtime_error("data_partition(cat): bitset must be non-empty"));
    }
    let to_left = mark_categorical(bins, min_bin, max_bin, most_freq_bin, bitset);
    proof {
        bit_marks_of_mark_bits(marks);
    }
    Ok(scatter_marked(data_indices, to_left.as_slice()))
}

/// The text of the fault of a row id past the data.
pub open spec fn row_text(row: u32, num_data: usize) -> Seq<char> {
    "update_data_index_to_leaf: data_index "@ + text::decimal(row as nat) + " >= num_data "@ + text::decimal(
        num_data as nat,
    )
}

/// The fault of the first row id, from position `from` on, that is past the data.
pub open spec fn first_bad_row(rows: Seq<u32>, num_data: usize, from: int) -> Option<Fault>
    decreases rows.len() - from,
{
    if from >= rows.len() {
        None
    } else if rows[from] >= num_data {
        Some(Fault::Runtime(row_text(rows[from], num_data)))
    } else {
        first_bad_row(rows, num_data, from + 1)
    }
}

/// No fault means that every row id is in range.
pub proof fn no_bad_row(rows: Seq<u32>, num_data: usize, from: int)
    requires
        0 <= from,
    ensures
        first_bad_row(rows, num_data, from) is None <==> (forall|i: int|
            from <= i < rows.len() ==> #[trigger] rows[i] < num_data),
    decreases rows.len() - from,
{
    if from < rows.len() {
        no_bad_row(rows, num_data, from + 1);
    }
}

/// The fault of writing the children of a split into a row-to-leaf map.
pub open spec fn leaf_map_fault(rows: Seq<u32>, to_left: Seq<u32>, num_data: usize) -> Option<Fault> {
    if rows.len() != to_left.len() {
        Some(Fault::LengthMismatch { expected: rows.len(), actual: to_left.len() })
    } else {
        first_bad_row(rows, num_data, 0)
    }
}

/// A row-to-leaf map after each of `rows` was given the leaf of its child, in order.
pub open spec fn leaf_writes(
    base: Seq<i32>,
    rows: Seq<u32>,
    to_left: Seq<u32>,
    left_leaf: i32,
    right_leaf: i32,
) -> Seq<i32>
    decreases rows.len(),
{
    if rows.len() == 0 {
        base
    } else {
        leaf_writes(base, rows.drop_last(), to_left.drop_last(), left_leaf, right_leaf).update(
            rows.last() as int,
            if to_left.last() == 1 { left_leaf } else { right_leaf },
        )
    }
}

/// Where no row occurs twice, each row holds the leaf of its child and every other entry is
/// untouched.
pub proof fn leaf_writes_by_row(
    base: Seq<i32>,
    rows: Seq<u32>,
    to_left: Seq<u32>,
    left_leaf: i32,
    right_leaf: i32,
)
    requires
        rows.len() == to_left.len(),
        rows.no_duplicates(),
        forall|i: int| 0 <= i < rows.len() ==> #[trigger] rows[i] < base.len(),
    ensures
        leaf_writes(base, rows, to_left, left_leaf, right_leaf).len() == base.len(),
        forall|i: int|
            0 <= i < rows.len() ==> leaf_writes(base, rows, to_left, left_leaf, right_leaf)[#[trigger] rows[i] as int]
                == (if to_left[i] == 1 { left_leaf } else { right_leaf }),
        forall|row: int|
            0 <= row < base.len() && (forall|i: int| 0 <= i < rows.len() ==> #[trigger] rows[i] != row)
                ==> #[trigger] leaf_writes(
                base,
                rows,
                to_left,
                left_leaf,
                right_leaf,
            )[row] == base[row],
    decreases rows.len(),
{
    if rows.len() > 0 {
        let r0 = rows.drop_last();
        let m0 = to_left.drop_last();
        assert(r0.no_duplicates());
        assert forall|i: int| 0 <= i < r0.len() implies #[trigger] r0[i] < base.len() by {
            assert(r0[i] == rows[i]);
        }
        leaf_writes_by_row(base, r0, m0, left_leaf, right_leaf);
        let w = leaf_writes(base, rows, to_left, left_leaf, right_leaf);
        assert forall|i: int| 0 <= i < rows.len() implies w[#[trigger] rows[i] as int] == (if to_left[i]
            == 1 { left_leaf } else { right_leaf }) by {
            if i < r0.len() {
                assert(r0[i] == rows[i]);
                assert(rows[i] != rows[rows.len() - 1]);
            }
        }
        assert forall|row: int|
            0 <= row < base.len() && (forall|i: int| 0 <= i < rows.len() ==> #[trigger] rows[i] != row) implies
            #[trigger] w[row] == base[row] by {
            assert(rows[rows.len() - 1] != row);
            assert forall|i: int| 0 <= i < r0.len() implies #[trigger] r0[i] != row by {
                assert(rows[i] != row);
            }
        }
    }
}

/// The length of a row-to-leaf map does not change.
pub proof fn leaf_writes_len(
    base: Seq<i32>,
    rows: Seq<u32>,
    to_left: Seq<u32>,
    left_leaf: i32,
    right_leaf: i32,
)
    requires
        rows.len() == to_left.len(),
        forall|i: int| 0 <= i < rows.len() ==> #[trigger] rows[i] < base.len(),
    ensures
        leaf_writes(base, rows, to_left, left_leaf, right_leaf).len() == base.len(),
    decreases rows.len(),
{
    if rows.len() > 0 {
        assert forall|i: int| 0 <= i < rows.len() - 1 implies #[trigger] rows.drop_last()[i] < base.len() by {
            assert(rows.drop_last()[i] == rows[i]);
        }
        leaf_writes_len(base, rows.drop_last(), to_left.drop_last(), left_leaf, right_leaf);
    }
}

/// Check the rows of a split against their marks and the number of rows.
pub fn check_leaf_rows(data_indices: &[u32], to_left: &[u32], num_data: usize) -> (r: Result<(), ComputeError>)
    ensures
        error::fails_as(r, leaf_map_fault(data_indices@, to_left@, num_data)),
{
    if data_indices.len() != to_left.len() {
        return Err(
            ComputeError::LengthMismatch { expected: data_indices.len(), actual: to_left.len() },
        );
    }
    let n: usize = data_indices.len();
    let mut i: usize = 0;
    while i < n
        invariant
            i <= n,
            n == data_indices@.len(),
            first_bad_row(data_indices@, num_data, 0) == first_bad_row(
                data_indices@,
                num_data,
                i as int,
            ),
            leaf_map_fault(data_indices@, to_left@, num_data) == first_bad_row(data_indices@, num_data, 0),
        decreases n - i,
    {
        if data_indices[i] as usize >= num_data {
            let mut detail: String = "update_data_index_to_leaf: data_index ".to_owned();
            text::push_decimal(&mut detail, data_indices[i] as u64);
            detail.append(" >= num_data ");
            text::push_decimal(&mut detail, num_data as u64);
            return Err(ComputeError::Runtime { detail });
        }
        i += 1;
    }
    Ok(())
}

/// A fresh row-to-leaf map of `num_data` rows in which the rows of one split leaf hold the
/// leaf of their child (`to_left` 1 for the left one) and every other row holds -1.
pub fn update_data_index_to_leaf_on(
    data_indices: &[u32],
    to_left: &[u32],
    num_data: usize,
    left_leaf_index: i32,
    right_leaf_index: i32,
) -> (r: Result<Vec<i32>, ComputeError>)
    ensures
        error::fails_as(r, leaf_map_fault(data_indices@, to_left@, num_data)),
        r matches Ok(map) ==> map@ == leaf_writes(
            Seq::new(num_data as nat, |i: int| -1i32),
            data_indices@,
            to_left@,
            left_leaf_index,
            right_leaf_index,
        ),
{
    check_leaf_rows(data_indices, to_left, num_data)?;
    let n: usize = data_indices.len();
    proof {
        no_bad_row(data_indices@, num_data, 0);
    }
    let mut map: Vec<i32> = vec![-1i32; num_data];
    let ghost base = Seq::new(num_data as nat, |i: int| -1i32);
    assert(map@ =~= base);
    let mut i: usize = 0;
    while i < n
        invariant
            i <= n,
            n == data_indices@.len(),
            n == to_left@.len(),
            base.len() == num_data,
            map@.len() == num_data,
            forall|k: int| 0 <= k < n ==> #[trigger] data_indices@[k] < num_data,
            map@ == leaf_writes(
                base,
                data_indices@.take(i as int),
                to_left@.take(i as int),
                left_leaf_index,
                right_leaf_index,
            ),
        decreases n - i,
    {
        let leaf: i32 = if to_left[i] == 1 {
            left_leaf_index
        } else {
            right_leaf_index
        };
        map.set(data_indices[i] as usize, leaf);
        proof {
            let next = data_indices@.take(i + 1);
            assert(next.drop_last() =~= data_indices@.take(i as int));
            assert(to_left@.take(i + 1).drop_last() =~= to_left@.take(i as int));
        }
        i += 1;
    }
    assert(data_indices@.take(n as int) =~= data_indices@);
    assert(to_left@.take(n as int) =~= to_left@);
    Ok(map)
}

/// The child statistics of one split, as the split-info buffer holds them.
#[derive(Clone, Copy, Debug, PartialEq, Eq)]
pub struct SplitPacket {
    /// Left leaf, rows and start; right leaf, rows and start; the leaf with fewer rows; the
    /// other leaf.
    pub ints: [i32; 8],
    /// Hessian sums of the left and the right leaf, then their gradient sums.
    pub sums: [Real64; 4],
}

/// The child with fewer rows, the right one on a tie, and the other child.
pub open spec fn smaller_then_larger(left_leaf: i32, left_num: i32, right_leaf: i32, right_num: i32) -> (
    i32,
    i32,
) {
    if left_num < right_num {
        (left_leaf, right_leaf)
    } else {
        (right_leaf, left_leaf)
    }
}

/// Pack the child statistics of one split.
pub fn split_tree_structure_packet(
    left_leaf: i32,
    left_num_data: i32,
    left_data_start: i32,
    right_leaf: i32,
    right_num_data: i32,
    right_data_start: i32,
    scalars: &SplitScalars,
) -> (packet: SplitPacket)
    ensures
        packet.ints@ == seq![
            left_leaf,
            left_num_data,
            left_data_start,
            right_leaf,
            right_num_data,
            right_data_start,
            smaller_then_larger(left_leaf, left_num_data, right_leaf, right_num_data).0,
            smaller_then_larger(left_leaf, left_num_data, right_leaf, right_num_data).1,
        ],
        packet.sums@ == seq![
            scalars.left_sum_hessians,
            scalars.right_sum_hessians,
            scalars.left_sum_gradients,
            scalars.right_sum_gradients,
        ],
{
    let (smaller, larger): (i32, i32) = if left_num_data < right_num_data {
        (left_leaf, right_leaf)
    } else {
        (right_leaf, left_leaf)
    };
    SplitPacket {
        ints: [
            left_leaf,
            left_num_data,
            left_data_start,
            right_leaf,
            right_num_data,
            right_data_start,
            smaller,
            larger,
        ],
        sums: [
            scalars.left_sum_hessians,
            scalars.right_sum_hessians,
            scalars.left_sum_gradients,
            scalars.right_sum_gradients,
        ],
    }
}

} // verus!
