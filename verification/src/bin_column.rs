//! A feature's per-row bins, stored in the narrowest width that holds them.
use vstd::prelude::*;

verus! {

/// Per-row bin indices of one feature at a width of 8, 16 or 32 bits.
#[derive(Debug, Clone)]
pub enum BinColumn {
    U8(Vec<u8>),
    U16(Vec<u16>),
    U32(Vec<u32>),
}

impl View for BinColumn {
    type V = Seq<u32>;

    /// The bins, widened.
    open spec fn view(&self) -> Seq<u32> {
        match *self {
            BinColumn::U8(v) => Seq::new(v@.len(), |i: int| v@[i] as u32),
            BinColumn::U16(v) => Seq::new(v@.len(), |i: int| v@[i] as u32),
            BinColumn::U32(v) => v@,
        }
    }
}

/// How many distinct values a column for `num_bin` bins can hold.
pub open spec fn column_capacity(num_bin: u32) -> int {
    if num_bin <= 256 {
        256
    } else if num_bin <= 65536 {
        65536
    } else {
        0x1_0000_0000
    }
}

/// The bins as a column for `num_bin` bins stores them: each modulo what the width can hold.
pub open spec fn narrowed(bins: Seq<u32>, num_bin: u32) -> Seq<u32> {
    Seq::new(bins.len(), |i: int| (bins[i] as int % column_capacity(num_bin)) as u32)
}

impl BinColumn {
    /// The storage width in bits.
    pub open spec fn width(&self) -> int {
        match *self {
            BinColumn::U8(_) => 8,
            BinColumn::U16(_) => 16,
            BinColumn::U32(_) => 32,
        }
    }

    /// Store `bins` in the narrowest width for `num_bin` bins. A bin that the width cannot
    /// hold keeps its low bits.
    pub fn new(bins: Vec<u32>, num_bin: u32) -> (column: BinColumn)
        ensures
            column@ == narrowed(bins@, num_bin),
            column.width() == (if num_bin <= 256 { 8int } else if num_bin <= 65536 { 16int } else { 32int }),
    {
        if num_bin <= 256 {
            let mut v: Vec<u8> = Vec::with_capacity(bins.len());
            let mut i: usize = 0;
            while i < bins.len()
                invariant
                    i <= bins@.len(),
                    v@.len() == i,
                    forall|k: int| 0 <= k < i ==> #[trigger] v@[k] == bins@[k] as int % 256,
                decreases bins@.len() - i,
            {
                let b: u32 = bins[i];
                assert(b as u8 == b % 256) by (bit_vector);
                v.push(b as u8);
                i += 1;
            }
            let column = BinColumn::U8(v);
            assert(column@ =~= narrowed(bins@, num_bin));
            column
        } else if num_bin <= 65536 {
            let mut v: Vec<u16> = Vec::with_capacity(bins.len());
            let mut i: usize = 0;
            while i < bins.len()
                invariant
                    i <= bins@.len(),
                    v@.len() == i,
                    forall|k: int| 0 <= k < i ==> #[trigger] v@[k] == bins@[k] as int % 65536,
                decreases bins@.len() - i,
            {
                let b: u32 = bins[i];
                assert(b as u16 == b % 65536) by (bit_vector);
                v.push(b as u16);
                i += 1;
            }
            let column = BinColumn::U16(v);
            assert(column@ =~= narrowed(bins@, num_bin));
            column
        } else {
            assert(bins@ =~= narrowed(bins@, num_bin));
            BinColumn::U32(bins)
        }
    }

    /// The number of rows.
    pub fn len(&self) -> (n: usize)
        ensures
            n == self@.len(),
    {
        match self {
            BinColumn::U8(v) => v.len(),
            BinColumn::U16(v) => v.len(),
            BinColumn::U32(v) => v.len(),
        }
    }

    /// The bin of row `row`.
    pub fn bin(&self, row: usize) -> (b: u32)
        requires
            row < self@.len(),
        ensures
            b == self@[row as int],
    {
        match self {
            BinColumn::U8(v) => v[row] as u32,
            BinColumn::U16(v) => v[row] as u32,
            BinColumn::U32(v) => v[row],
        }
    }

    /// All bins, widened.
    pub fn to_u32_vec(&self) -> (bins: Vec<u32>)
        ensures
            bins@ == self@,
    {
        let n: usize = self.len();
        let mut bins: Vec<u32> = Vec::with_capacity(n);
        let mut i: usize = 0;
        while i < n
            invariant
                i <= n,
                n == self@.len(),
                bins@ == self@.take(i as int),
            decreases n - i,
        {
            bins.push(self.bin(i));
            i += 1;
            assert(bins@ =~= self@.take(i as int));
        }
        assert(bins@ =~= self@);
        bins
    }
}

/// A column keeps every bin that its width can hold, so every bin below its feature's bin count.
pub proof fn column_keeps_valid_bins(bins: Seq<u32>, num_bin: u32)
    requires
        forall|i: int| 0 <= i < bins.len() ==> #[trigger] bins[i] < column_capacity(num_bin),
    ensures
        narrowed(bins, num_bin) == bins,
{
    assert(narrowed(bins, num_bin) =~= bins);
}

} // verus!
