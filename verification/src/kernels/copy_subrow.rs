//! The rows that a bagging round draws, and the columns of those rows.
use crate::bin_column::BinColumn;
use crate::error;
use crate::error::{ComputeError, Fault};
use crate::number::Real64;
use crate::stable;
use crate::text;
use vstd::prelude::*;

verus! {

/// How many rows a launch tile copies.
pub const COPY_SUBROW_BLOCK_SIZE: u32 = 1024;

/// How many rows share a random generator.
pub const BAGGING_RAND_BLOCK: i32 = 1024;

/// The rows' entries, in the order of the rows.
pub open spec fn subrows<T>(column: Seq<T>, used: Seq<i32>) -> Seq<T> {
    Seq::new(used.len(), |i: int| column[used[i] as int])
}

/// The text of the fault of a negative row.
pub open spec fn negative_row_text(pos: nat, idx: int) -> Seq<char> {
    "copy_subrow: used_indices["@ + text::decimal(pos) + "] = "@ + text::signed_decimal(idx) + " is negative"@
}

/// The fault of the first row, from `from` on, that is not among `num_data` rows.
pub open spec fn first_row_fault(used: Seq<i32>, num_data: usize, from: int) -> Option<Fault>
    decreases used.len() - from,
{
    if from >= used.len() {
        None
    } else if used[from] < 0 {
        Some(Fault::Runtime(negative_row_text(from as nat, used[from] as int)))
    } else if used[from] >= num_data {
        Some(
            Fault::BinIndexOutOfRange {
                row: from as nat,
                bin: used[from] as u32,
                num_bin: num_data as u32,
            },
        )
    } else {
        first_row_fault(used, num_data, from + 1)
    }
}

/// Without a fault every row is among the `num_data` rows.
proof fn no_bad_row(used: Seq<i32>, num_data: usize, from: int)
    requires
        0 <= from,
        first_row_fault(used, num_data, from) is None,
    ensures
        forall|i: int| from <= i < used.len() ==> 0 <= #[trigger] used[i] < num_data,
    decreases used.len() - from,
{
    if from < used.len() {
        no_bad_row(used, num_data, from + 1);
    }
}

/// The text of the fault of a copy with too many bytes.
pub open spec fn copy_size_text(num_used: nat, bytes: nat) -> Seq<char> {
    "copy_subrow: output sizing "@ + text::decimal(num_used) + " * "@ + text::decimal(bytes)
        + " overflows usize"@
}

/// The fault of a copy: a column of another length, a row out of range, or too many bytes.
pub open spec fn copy_subrow_fault(column: BinColumn, used: Seq<i32>, num_data: usize) -> Option<Fault> {
    let bytes = column.width() / 8;
    if column@.len() != num_data {
        Some(Fault::LengthMismatch { expected: num_data as nat, actual: column@.len() })
    } else if first_row_fault(used, num_data, 0) is Some {
        first_row_fault(used, num_data, 0)
    } else if used.len() * bytes > usize::MAX {
        Some(Fault::Runtime(copy_size_text(used.len(), bytes as nat)))
    } else {
        None
    }
}

/// Copy the entries of the given rows.
pub fn copy_subrow_kernel<T: Copy>(in_col: &[T], used_indices: &[i32]) -> (out_col: Vec<T>)
    requires
        forall|i: int| 0 <= i < used_indices@.len() ==> 0 <= #[trigger] used_indices@[i] < in_col@.len(),
    ensures
        out_col@ == subrows(in_col@, used_indices@),
{
    let mut out_col: Vec<T> = Vec::with_capacity(used_indices.len());
    let mut local: usize = 0;
    while local < used_indices.len()
        invariant
            local <= used_indices@.len(),
            forall|i: int|
                0 <= i < used_indices@.len() ==> 0 <= #[trigger] used_indices@[i] < in_col@.len(),
            out_col@ == subrows(in_col@, used_indices@).take(local as int),
        decreases used_indices@.len() - local,
    {
        out_col.push(in_col[used_indices[local] as usize]);
        local += 1;
        assert(out_col@ =~= subrows(in_col@, used_indices@).take(local as int));
    }
    assert(out_col@ =~= subrows(in_col@, used_indices@));
    out_col
}

/// Check the rows to be gathered from a column of `num_data` rows, and the size of the result.
pub fn check_subrows(column: &BinColumn, used_indices: &[i32], num_data: usize) -> (r: Result<(), ComputeError>)
    ensures
        error::fails_as(r, copy_subrow_fault(*column, used_indices@, num_data)),
{
    if column.len() != num_data {
        return Err(ComputeError::LengthMismatch { expected: num_data, actual: column.len() });
    }
    let mut pos: usize = 0;
    while pos < used_indices.len()
        invariant
            pos <= used_indices@.len(),
            column@.len() == num_data,
            first_row_fault(used_indices@, num_data, 0) == first_row_fault(
                used_indices@,
                num_data,
                pos as int,
            ),
        decreases used_indices@.len() - pos,
    {
        let idx: i32 = used_indices[pos];
        if idx < 0 {
            let mut detail: String = "copy_subrow: used_indices[".to_owned();
            text::push_decimal(&mut detail, pos as u64);
            detail.append("] = ");
            text::push_signed_decimal(&mut detail, idx as i64);
            detail.append(" is negative");
            return Err(ComputeError::Runtime { detail });
        }
        if idx as usize >= num_data {
            return Err(
                ComputeError::BinIndexOutOfRange { row: pos, bin: idx as u32, num_bin: num_data as u32 },
            );
        }
        pos += 1;
    }
    let bytes: usize = match column {
        BinColumn::U8(_) => 1,
        BinColumn::U16(_) => 2,
        BinColumn::U32(_) => 4,
    };
    if used_indices.len().checked_mul(bytes).is_none() {
        let mut detail: String = "copy_subrow: output sizing ".to_owned();
        text::push_decimal(&mut detail, used_indices.len() as u64);
        detail.append(" * ");
        text::push_decimal(&mut detail, bytes as u64);
        detail.append(" overflows usize");
        return Err(ComputeError::Runtime { detail });
    }
    Ok(())
}

/// The column of the given rows, at the width of the whole column.
pub fn copy_subrow_on(column: &BinColumn, used_indices: &[i32], num_data: usize) -> (r: Result<
    BinColumn,
    ComputeError,
>)
    ensures
        error::fails_as(r, copy_subrow_fault(*column, used_indices@, num_data)),
        r matches Ok(subset) ==> subset@ == subrows(column@, used_indices@) && subset.width() == column.width(),
{
    check_subrows(column, used_indices, num_data)?;
    proof {
        no_bad_row(used_indices@, num_data, 0);
    }
    let subset: BinColumn = match column {
        BinColumn::U8(v) => BinColumn::U8(copy_subrow_kernel(v.as_slice(), used_indices)),
        BinColumn::U16(v) => BinColumn::U16(copy_subrow_kernel(v.as_slice(), used_indices)),
        BinColumn::U32(v) => BinColumn::U32(copy_subrow_kernel(v.as_slice(), used_indices)),
    };
    assert(subset@ =~= subrows(column@, used_indices@));
    Ok(subset)
}

/// How many random generators `num_data` rows take.
pub open spec fn bagging_blocks(num_data: i32) -> int {
    if num_data <= 0 {
        0
    } else {
        (num_data + BAGGING_RAND_BLOCK - 1) / BAGGING_RAND_BLOCK as int
    }
}

/// The seeds of the random generators: one per block of rows, counted up from the bagging seed.
pub fn bagging_seeds(num_data: i32, bagging_seed: i32) -> (seeds: Vec<u32>)
    requires
        num_data + BAGGING_RAND_BLOCK <= i32::MAX,
        bagging_seed + bagging_blocks(num_data) - 1 <= i32::MAX,
    ensures
        seeds@ == Seq::new(bagging_blocks(num_data) as nat, |b: int| (bagging_seed + b) as i32 as u32),
{
    let mut seeds: Vec<u32> = Vec::new();
    let blocks: i32 = if num_data <= 0 {
        0
    } else {
        (num_data + BAGGING_RAND_BLOCK - 1) / BAGGING_RAND_BLOCK
    };
    let ghost all = Seq::new(bagging_blocks(num_data) as nat, |b: int| (bagging_seed + b) as i32 as u32);
    let mut b: i32 = 0;
    while b < blocks
        invariant
            0 <= b <= blocks,
            blocks == bagging_blocks(num_data),
            bagging_seed + blocks - 1 <= i32::MAX,
            all == Seq::new(bagging_blocks(num_data) as nat, |k: int| (bagging_seed + k) as i32 as u32),
            seeds@ == all.take(b as int),
        decreases blocks - b,
    {
        seeds.push((bagging_seed + b) as u32);
        b += 1;
        assert(seeds@ =~= all.take(b as int));
    }
    assert(seeds@ =~= all);
    seeds
}

/// The blocks of rows cover all rows, and the last one is not empty.
pub proof fn bagging_blocks_cover_rows(num_data: i32)
    requires
        num_data > 0,
    ensures
        (bagging_blocks(num_data) - 1) * BAGGING_RAND_BLOCK < num_data <= bagging_blocks(num_data)
            * BAGGING_RAND_BLOCK,
{
}

/// Which rows are in the bag: those whose draw is below the fraction.
pub open spec fn in_bag(draws: Seq<Real64>, num_data: int, fraction: Real64) -> Seq<bool> {
    Seq::new(num_data as nat, |i: int| fraction.spec_above(draws[i]))
}

/// The row numbers from 0 on.
pub open spec fn row_numbers(n: int) -> Seq<i32> {
    Seq::new(n as nat, |i: int| i as i32)
}

/// The rows in the bag in ascending order, then the others in descending order.
pub open spec fn bag_layout(marks: Seq<bool>) -> Seq<i32> {
    let rows = row_numbers(marks.len() as int);
    stable::chosen(rows, marks, true) + stable::chosen(rows, marks, false).reverse()
}

/// A bag layout holds every row once.
pub proof fn bag_layout_is_permutation(marks: Seq<bool>)
    ensures
        bag_layout(marks).to_multiset() == row_numbers(marks.len() as int).to_multiset(),
        bag_layout(marks).len() == marks.len(),
{
    let rows = row_numbers(marks.len() as int);
    let left = stable::chosen(rows, marks, true);
    let right = stable::chosen(rows, marks, false);
    stable::partition_is_permutation(rows, marks);
    stable::chosen_len(rows, marks, true);
    stable::chosen_len(rows, marks, false);
    stable::tallies_sum(marks);
    right.lemma_reverse_to_multiset();
    vstd::seq_lib::lemma_multiset_commutative(left, right);
    vstd::seq_lib::lemma_multiset_commutative(left, right.reverse());
}

/// The rows of a bagging round, from one draw per row: a row is in the bag where its draw is below
/// the fraction.
pub fn bagging_draw_on(num_data: i32, draws: &[Real64], bagging_fraction: Real64) -> (bag: Vec<i32>)
    requires
        num_data <= draws@.len(),
    ensures
        bag@ == bag_layout(
            in_bag(
                draws@,
                if num_data > 0 {
                    num_data as int
                } else {
                    0
                },
                bagging_fraction,
            ),
        ),
{
    let n: i32 = if num_data > 0 {
        num_data
    } else {
        0
    };
    let ghost marks = in_bag(draws@, n as int, bagging_fraction);
    let ghost rows = row_numbers(n as int);
    let mut bag: Vec<i32> = Vec::with_capacity(n as usize);
    let mut out: Vec<i32> = Vec::new();
    let mut i: i32 = 0;
    while i < n
        invariant
            0 <= i <= n,
            n <= draws@.len(),
            marks == in_bag(draws@, n as int, bagging_fraction),
            rows == row_numbers(n as int),
            bag@ == stable::chosen(rows.take(i as int), marks.take(i as int), true),
            out@ == stable::chosen(rows.take(i as int), marks.take(i as int), false),
        decreases n - i,
    {
        proof {
            stable::chosen_extends(rows, marks, i as int, true);
            stable::chosen_extends(rows, marks, i as int, false);
        }
        if bagging_fraction.above(draws[i as usize]) {
            bag.push(i);
        } else {
            out.push(i);
        }
        i += 1;
    }
    assert(rows.take(n as int) =~= rows);
    assert(marks.take(n as int) =~= marks);
    let ghost left = bag@;
    let ghost right = out@;
    let mut k: usize = out.len();
    while k > 0
        invariant
            k <= out@.len(),
            out@ == right,
            bag@ == left + right.reverse().take(out@.len() - k),
        decreases k,
    {
        k -= 1;
        bag.push(out[k]);
        assert(bag@ =~= left + right.reverse().take(out@.len() - k));
    }
    assert(right.reverse().take(right.len() as int) =~= right.reverse());
    bag
}

} // verus!
