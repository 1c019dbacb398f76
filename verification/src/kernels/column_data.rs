//! The binned features of a data set, one column per feature at the feature's own width.
use crate::bin_column::BinColumn;
use crate::error;
use crate::error::{ComputeError, Fault};
use crate::text;
use vstd::prelude::*;

verus! {

/// How one feature is binned and where its column is.
#[derive(Clone, Debug, PartialEq, Eq, Structural)]
pub struct ColumnFeatureMeta {
    /// The width of the column in bits: 8, 16 or 32.
    pub bit_type: u32,
    pub feature_min_bin: u32,
    pub feature_max_bin: u32,
    /// The feature's first bin among the bins of all features.
    pub offset: u32,
    pub most_freq_bin: u32,
    pub default_bin: u32,
    pub missing_is_zero: bool,
    pub missing_is_na: bool,
    /// The column of the feature.
    pub feature_to_column: usize,
}

impl Default for ColumnFeatureMeta {
    fn default() -> (m: ColumnFeatureMeta)
        ensures
            m == (ColumnFeatureMeta {
                bit_type: 0,
                feature_min_bin: 0,
                feature_max_bin: 0,
                offset: 0,
                most_freq_bin: 0,
                default_bin: 0,
                missing_is_zero: false,
                missing_is_na: false,
                feature_to_column: 0,
            }),
    {
        ColumnFeatureMeta {
            bit_type: 0,
            feature_min_bin: 0,
            feature_max_bin: 0,
            offset: 0,
            most_freq_bin: 0,
            default_bin: 0,
            missing_is_zero: false,
            missing_is_na: false,
            feature_to_column: 0,
        }
    }
}

/// The columns of all features as they stay on the device, with what is known of each feature.
pub struct CudaColumnData {
    pub feature_meta: Vec<ColumnFeatureMeta>,
    columns: Vec<BinColumn>,
}

/// The width of a column in bits.
pub fn column_bit_width(column: &BinColumn) -> (bits: u32)
    ensures
        bits == column.width(),
{
    match column {
        BinColumn::U8(_) => 8,
        BinColumn::U16(_) => 16,
        BinColumn::U32(_) => 32,
    }
}

/// How many values a cell of the given width can hold.
pub open spec fn cell_capacity(bit_type: u32) -> int {
    if bit_type == 8 {
        256
    } else if bit_type == 16 {
        65536
    } else {
        0x1_0000_0000
    }
}

/// The fault of a width that no column has.
pub open spec fn width_fault(bit_type: u32) -> Option<Fault> {
    if bit_type == 8 || bit_type == 16 || bit_type == 32 {
        None
    } else {
        Some(
            Fault::Runtime(
                "unsupported column bit_type "@ + text::decimal(bit_type as nat) + " (expected 8/16/32)"@,
            ),
        )
    }
}

/// The values at the given width: each value keeps the bits that the width can hold.
pub fn upload_column_buffer(vals: &[u32], bit_type: u32) -> (r: Result<BinColumn, ComputeError>)
    ensures
        error::fails_as(r, width_fault(bit_type)),
        r matches Ok(column) ==> column.width() == bit_type && column@ == Seq::new(
            vals@.len(),
            |i: int| (vals@[i] as int % cell_capacity(bit_type)) as u32,
        ),
{
    let ghost stored = Seq::new(vals@.len(), |i: int| (vals@[i] as int % cell_capacity(bit_type)) as u32);
    if bit_type == 8 {
        let mut v: Vec<u8> = Vec::with_capacity(vals.len());
        let mut i: usize = 0;
        while i < vals.len()
            invariant
                i <= vals@.len(),
                v@.len() == i,
                forall|k: int| 0 <= k < i ==> #[trigger] v@[k] == vals@[k] as int % 256,
            decreases vals@.len() - i,
        {
            let x: u32 = vals[i];
            assert(x as u8 == x % 256) by (bit_vector);
            v.push(x as u8);
            i += 1;
        }
        let column = BinColumn::U8(v);
        assert(column@ =~= stored);
        return Ok(column);
    }
    if bit_type == 16 {
        let mut v: Vec<u16> = Vec::with_capacity(vals.len());
        let mut i: usize = 0;
        while i < vals.len()
            invariant
                i <= vals@.len(),
                v@.len() == i,
                forall|k: int| 0 <= k < i ==> #[trigger] v@[k] == vals@[k] as int % 65536,
            decreases vals@.len() - i,
        {
            let x: u32 = vals[i];
            assert(x as u16 == x % 65536) by (bit_vector);
            v.push(x as u16);
            i += 1;
        }
        let column = BinColumn::U16(v);
        assert(column@ =~= stored);
        return Ok(column);
    }
    if bit_type == 32 {
        let mut v: Vec<u32> = Vec::with_capacity(vals.len());
        let mut i: usize = 0;
        while i < vals.len()
            invariant
                i <= vals@.len(),
                v@ == vals@.take(i as int),
            decreases vals@.len() - i,
        {
            v.push(vals[i]);
            i += 1;
            assert(v@ =~= vals@.take(i as int));
        }
        let column = BinColumn::U32(v);
        assert(column@ =~= stored);
        return Ok(column);
    }
    let mut detail: String = "unsupported column bit_type ".to_owned();
    text::push_decimal(&mut detail, bit_type as u64);
    detail.append(" (expected 8/16/32)");
    Err(ComputeError::Runtime { detail })
}

/// The text of the fault of a column with too many bytes.
pub open spec fn column_size_text(len: nat, bytes: nat) -> Seq<char> {
    "CudaColumnData::new: column len "@ + text::decimal(len) + " * bytes_per "@ + text::decimal(bytes)
        + " overflows usize"@
}

/// The fault of the first column, from `from` on, that has too many bytes.
pub open spec fn first_column_fault(columns: Seq<BinColumn>, from: int) -> Option<Fault>
    decreases columns.len() - from,
{
    if from >= columns.len() {
        None
    } else {
        let bytes = columns[from].width() / 8;
        if columns[from]@.len() * bytes > usize::MAX {
            Some(Fault::Runtime(column_size_text(columns[from]@.len(), bytes as nat)))
        } else {
            first_column_fault(columns, from + 1)
        }
    }
}

/// The fault of a store: features that are not one per column, or a column with too many bytes.
pub open spec fn store_fault(columns: Seq<BinColumn>, metas: nat) -> Option<Fault> {
    if metas != columns.len() {
        Some(Fault::LengthMismatch { expected: columns.len(), actual: metas })
    } else {
        first_column_fault(columns, 0)
    }
}

/// The text of the fault of a column that is not there.
pub open spec fn column_range_text(column: nat, num_columns: nat) -> Seq<char> {
    "read_column: column "@ + text::decimal(column) + " out of range (num_columns="@ + text::decimal(num_columns)
        + ")"@
}

/// A column of bins at a width that holds them keeps its bins.
proof fn width_holds_bins(column: BinColumn)
    ensures
        forall|i: int|
            0 <= i < column@.len() ==> #[trigger] column@[i] as int % cell_capacity(column.width() as u32)
                == column@[i],
{
}

impl CudaColumnData {
    /// What each column holds.
    pub closed spec fn columns(&self) -> Seq<BinColumn> {
        self.columns@
    }

    /// What is known of each feature.
    pub closed spec fn metas(&self) -> Seq<ColumnFeatureMeta> {
        self.feature_meta@
    }

    /// Store every column at its own width.
    pub fn new(columns: &[BinColumn], feature_meta: Vec<ColumnFeatureMeta>) -> (r: Result<
        CudaColumnData,
        ComputeError,
    >)
        ensures
            error::fails_as(r, store_fault(columns@, feature_meta@.len())),
            r matches Ok(store) ==> {
                &&& store.metas() == feature_meta@
                &&& store.columns().len() == columns@.len()
                &&& forall|c: int|
                    0 <= c < columns@.len() ==> (#[trigger] store.columns()[c])@ == columns@[c]@
                        && store.columns()[c].width() == columns@[c].width()
            },
    {
        if feature_meta.len() != columns.len() {
            return Err(
                ComputeError::LengthMismatch { expected: columns.len(), actual: feature_meta.len() },
            );
        }
        let mut stored: Vec<BinColumn> = Vec::with_capacity(columns.len());
        let mut c: usize = 0;
        while c < columns.len()
            invariant
                c <= columns@.len(),
                feature_meta@.len() == columns@.len(),
                first_column_fault(columns@, 0) == first_column_fault(columns@, c as int),
                stored@.len() == c,
                forall|k: int|
                    0 <= k < c ==> (#[trigger] stored@[k])@ == columns@[k]@ && stored@[k].width()
                        == columns@[k].width(),
            decreases columns@.len() - c,
        {
            let column: &BinColumn = &columns[c];
            let bit_type: u32 = column_bit_width(column);
            let len: usize = column.len();
            let bytes: usize = (bit_type / 8) as usize;
            if len.checked_mul(bytes).is_none() {
                let mut detail: String = "CudaColumnData::new: column len ".to_owned();
                text::push_decimal(&mut detail, len as u64);
                detail.append(" * bytes_per ");
                text::push_decimal(&mut detail, bytes as u64);
                detail.append(" overflows usize");
                return Err(ComputeError::Runtime { detail });
            }
            let vals: Vec<u32> = column.to_u32_vec();
            let buffer: BinColumn = upload_column_buffer(vals.as_slice(), bit_type)?;
            proof {
                width_holds_bins(*column);
                assert(buffer@ =~= column@);
            }
            stored.push(buffer);
            c += 1;
        }
        Ok(CudaColumnData { feature_meta, columns: stored })
    }

    /// The bins of a column, widened.
    pub fn read_column(&self, column: usize) -> (r: Result<Vec<u32>, ComputeError>)
        ensures
            error::fails_as(
                r,
                if column >= self.columns().len() {
                    Some(Fault::Runtime(column_range_text(column as nat, self.columns().len())))
                } else {
                    None
                },
            ),
            r matches Ok(bins) ==> bins@ == self.columns()[column as int]@,
    {
        if column >= self.columns.len() {
            let mut detail: String = "read_column: column ".to_owned();
            text::push_decimal(&mut detail, column as u64);
            detail.append(" out of range (num_columns=");
            text::push_decimal(&mut detail, self.columns.len() as u64);
            detail.append(")");
            return Err(ComputeError::Runtime { detail });
        }
        Ok(self.columns[column].to_u32_vec())
    }
}

} // verus!
