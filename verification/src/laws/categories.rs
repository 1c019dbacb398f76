//! What the bitsets of a categorical split hold.
use crate::kernels::categorical_split;
use crate::kernels::data_partition;
use vstd::prelude::*;

verus! {

/// The bitset of the categories has the table's category of every winning bin in the table, and
/// the bin itself of one past the table.
pub proof fn winning_categories_are_in_the_bitset(bits: Seq<u32>, bins: Seq<i32>, bin_to_category: Seq<i32>, i: int)
    requires
        categorical_split::is_bitset_of(bits, categorical_split::category_values(bins, bin_to_category)),
        0 <= i < bins.len(),
        0 <= bins[i],
    ensures
        bins[i] < bin_to_category.len() ==> data_partition::in_bitset(
            bits,
            bin_to_category[bins[i] as int] as u32 as int,
        ),
        bins[i] >= bin_to_category.len() ==> data_partition::in_bitset(bits, bins[i] as int),
{
    let vals = categorical_split::category_values(bins, bin_to_category);
    let v = if bins[i] < bin_to_category.len() {
        bin_to_category[bins[i] as int] as u32
    } else {
        bins[i] as u32
    };
    assert(bins[i] as usize == bins[i]);
    assert(vals[i] == v);
    assert(vals.contains(v));
    assert(data_partition::in_bitset(bits, v as int));
}

/// The bitset of the categories has nothing else: each of its numbers is the table's category of a
/// winning bin, or a winning bin past the table.
pub proof fn bitset_has_winning_categories_only(
    bits: Seq<u32>,
    bins: Seq<i32>,
    bin_to_category: Seq<i32>,
    v: u32,
) -> (i: int)
    requires
        categorical_split::is_bitset_of(bits, categorical_split::category_values(bins, bin_to_category)),
        forall|k: int| 0 <= k < bins.len() ==> 0 <= #[trigger] bins[k],
        data_partition::in_bitset(bits, v as int),
    ensures
        0 <= i < bins.len(),
        bins[i] < bin_to_category.len() ==> v == bin_to_category[bins[i] as int] as u32,
        bins[i] >= bin_to_category.len() ==> v == bins[i],
{
    let vals = categorical_split::category_values(bins, bin_to_category);
    assert(vals.contains(v));
    let i = choose|i: int| 0 <= i < vals.len() && vals[i] == v;
    assert(0 <= bins[i]);
    assert(bins[i] as usize == bins[i]);
    i
}

/// The bitset of the winning bins has a bin exactly where it wins.
pub proof fn winning_bins_are_in_the_bitset(bits: Seq<u32>, bins: Seq<i32>, bin: i32)
    requires
        categorical_split::is_bitset_of(bits, categorical_split::bin_values(bins)),
        forall|k: int| 0 <= k < bins.len() ==> 0 <= #[trigger] bins[k],
        0 <= bin,
    ensures
        data_partition::in_bitset(bits, bin as int) <==> bins.contains(bin),
{
    let vals = categorical_split::bin_values(bins);
    assert(data_partition::in_bitset(bits, (bin as u32) as int) <==> vals.contains(bin as u32));
    if vals.contains(bin as u32) {
        let i = choose|i: int| 0 <= i < vals.len() && vals[i] == bin as u32;
        assert(0 <= bins[i]);
        assert(bins[i] == bin);
    }
    if bins.contains(bin) {
        let i = choose|i: int| 0 <= i < bins.len() && bins[i] == bin;
        assert(vals[i] == bin as u32);
    }
}

/// The routing bitset has a position exactly where a winning bin stands there: the bin less the
/// first one, plus the offset.
pub proof fn routing_positions_are_in_the_bitset(
    bits: Seq<u32>,
    bins: Seq<i32>,
    min_bin: i32,
    offset: i32,
    bin: i32,
)
    requires
        categorical_split::is_bitset_of(bits, categorical_split::routing_keys(bins, min_bin, offset)),
        forall|k: int| 0 <= k < bins.len() ==> 0 <= #[trigger] bins[k] - min_bin + offset <= i32::MAX,
        0 <= bin - min_bin + offset <= i32::MAX,
    ensures
        data_partition::in_bitset(bits, bin - min_bin + offset) <==> bins.contains(bin),
{
    let vals = categorical_split::routing_keys(bins, min_bin, offset);
    let key = (bin - min_bin + offset) as u32;
    assert(data_partition::in_bitset(bits, key as int) <==> vals.contains(key));
    if vals.contains(key) {
        let i = choose|i: int| 0 <= i < vals.len() && vals[i] == key;
        assert(0 <= bins[i] - min_bin + offset <= i32::MAX);
        assert(bins[i] == bin);
    }
    if bins.contains(bin) {
        let i = choose|i: int| 0 <= i < bins.len() && bins[i] == bin;
        assert(vals[i] == key);
    }
}

/// A bitset has no word to spare: its last word holds one of the numbers, and without a number
/// there is no word.
pub proof fn bitset_has_no_word_to_spare(bits: Seq<u32>, vals: Seq<u32>) -> (i: int)
    requires
        categorical_split::is_bitset_of(bits, vals),
    ensures
        bits.len() == 0 <==> vals.len() == 0,
        vals.len() > 0 ==> 0 <= i < vals.len() && vals[i] / 32 == bits.len() - 1,
        forall|k: int| 0 <= k < vals.len() ==> #[trigger] vals[k] / 32 < bits.len(),
{
    assert forall|k: int| 0 <= k < vals.len() implies #[trigger] vals[k] / 32 < bits.len() by {
        categorical_split::largest_bounds(vals, vals.len() as int, k);
    }
    if vals.len() == 0 {
        0
    } else {
        largest_is_reached(vals, vals.len() as int)
    }
}

proof fn largest_is_reached(vals: Seq<u32>, n: int) -> (i: int)
    requires
        0 < n <= vals.len(),
    ensures
        0 <= i < n,
        vals[i] == categorical_split::largest(vals, n),
    decreases n,
{
    if n == 1 {
        assert(categorical_split::largest(vals, 0) == 0);
        0
    } else if vals[n - 1] > categorical_split::largest(vals, n - 1) {
        n - 1
    } else {
        largest_is_reached(vals, n - 1)
    }
}

} // verus!
