//! Categorical split results and the bitsets that describe their category sets.
use crate::error::ComputeError;
use crate::gain::SplitInfo;
use crate::kernels::data_partition;
use crate::laws::categories;
use crate::number::Real64;
use vstd::prelude::*;

verus! {

/// The outcome of a categorical split search: the split, and the winning bins.
#[derive(Debug, Clone, PartialEq, Eq)]
pub struct CategoricalSplit {
    /// The split; its threshold is not used.
    pub split: SplitInfo,
    /// The bins that go left.
    pub cat_threshold: Vec<u32>,
}

impl CategoricalSplit {
    /// The outcome without a split. Its default direction is right.
    pub fn none() -> (s: CategoricalSplit)
        ensures
            s.split == (SplitInfo { default_left: false, ..SplitInfo::spec_none() }),
            s.cat_threshold@.len() == 0,
            !s.spec_is_splittable(),
    {
        let mut split = SplitInfo::none();
        split.default_left = false;
        CategoricalSplit { split, cat_threshold: Vec::new() }
    }

    pub open spec fn spec_is_splittable(&self) -> bool {
        !self.split.gain.spec_same(Real64::spec_neg_infinity())
    }

    /// Whether a split was found.
    pub fn is_splittable(&self) -> (r: bool)
        ensures
            r == self.spec_is_splittable(),
    {
        !self.split.gain.same(Real64::neg_infinity())
    }
}

/// The largest of the first `n` values, 0 where there are none.
pub open spec fn largest(vals: Seq<u32>, n: int) -> u32
    decreases n,
{
    if n <= 0 {
        0
    } else if vals[n - 1] > largest(vals, n - 1) {
        vals[n - 1]
    } else {
        largest(vals, n - 1)
    }
}

/// No value exceeds the largest one.
pub proof fn largest_bounds(vals: Seq<u32>, n: int, i: int)
    requires
        0 <= i < n <= vals.len(),
    ensures
        vals[i] <= largest(vals, n),
    decreases n,
{
    if i < n - 1 {
        largest_bounds(vals, n - 1, i);
    }
}

/// `bits` is the bitset of `vals`: as many 32-bit blocks as the largest value needs, none
/// where there are no values, and exactly the bits of the values set.
pub open spec fn is_bitset_of(bits: Seq<u32>, vals: Seq<u32>) -> bool {
    &&& bits.len() == (if vals.len() == 0 {
        0int
    } else {
        largest(vals, vals.len() as int) as int / 32 + 1
    })
    &&& forall|v: u32| #[trigger] data_partition::in_bitset(bits, v as int) <==> vals.contains(v)
}

proof fn set_bit(x: u32, j: u32, k: u32)
    by (bit_vector)
    requires
        j < 32,
        k < 32,
    ensures
        ((x | (1u32 << j)) >> k) & 1u32 == 1u32 <==> (j == k || (x >> k) & 1u32 == 1u32),
{
}

proof fn clear_bit(k: u32)
    by (bit_vector)
    requires
        k < 32,
    ensures
        (0u32 >> k) & 1u32 == 0u32,
{
}

/// The bitset of a list of values.
pub fn construct_bitset(vals: &[u32]) -> (bits: Vec<u32>)
    ensures
        is_bitset_of(bits@, vals@),
{
    if vals.len() == 0 {
        return Vec::new();
    }
    let mut max_val: u32 = 0;
    let mut i: usize = 0;
    while i < vals.len()
        invariant
            i <= vals@.len(),
            max_val == largest(vals@, i as int),
        decreases vals@.len() - i,
    {
        if vals[i] > max_val {
            max_val = vals[i];
        }
        i += 1;
    }
    let n_blocks: usize = (max_val / 32 + 1) as usize;
    let mut bits: Vec<u32> = vec![0u32; n_blocks];
    proof {
        assert forall|v: u32| !(#[trigger] data_partition::in_bitset(bits@, v as int)) by {
            clear_bit((v as int % 32) as u32);
        }
    }
    let mut i: usize = 0;
    while i < vals.len()
        invariant
            i <= vals@.len(),
            max_val == largest(vals@, vals@.len() as int),
            n_blocks == max_val / 32 + 1,
            bits@.len() == n_blocks,
            forall|v: u32| #[trigger] data_partition::in_bitset(bits@, v as int) <==> vals@.take(i as int).contains(v),
        decreases vals@.len() - i,
    {
        let v: u32 = vals[i];
        proof {
            largest_bounds(vals@, vals@.len() as int, i as int);
        }
        let w: usize = (v / 32) as usize;
        let block: u32 = bits[w];
        let ghost before = bits@;
        bits.set(w, block | (1u32 << (v % 32)));
        proof {
            let prefix = vals@.take(i as int);
            let next = vals@.take(i + 1);
            assert(next =~= prefix.push(v));
            assert forall|u: u32| #[trigger] data_partition::in_bitset(bits@, u as int) <==> next.contains(u) by {
                set_bit(block, (v % 32) as u32, (u % 32) as u32);
                assert(next.contains(u) <==> (u == v || prefix.contains(u))) by {
                    if prefix.contains(u) {
                        let k = choose|k: int| 0 <= k < prefix.len() && prefix[k] == u;
                        assert(next[k] == u);
                    }
                    if u == v {
                        assert(next[i as int] == v);
                    }
                    if next.contains(u) && u != v {
                        let k = choose|k: int| 0 <= k < next.len() && next[k] == u;
                        assert(prefix[k] == u);
                    }
                }
                assert(data_partition::in_bitset(before, u as int) <==> prefix.contains(u));
                assert(u as int / 32 == u / 32);
                assert((u as int % 32) as u32 == u % 32);
                if u / 32 == v / 32 {
                    assert(u % 32 == v % 32 <==> u == v);
                }
            }
        }
        i += 1;
    }
    assert(vals@.take(vals@.len() as int) =~= vals@);
    bits
}

/// The category of a winning bin: its entry in the bin table, or the bin itself where the
/// table has none.
pub open spec fn category_of(bin: i32, bin_to_category: Seq<i32>) -> i32 {
    if (bin as usize) < bin_to_category.len() {
        bin_to_category[bin as usize as int]
    } else {
        bin
    }
}

/// The category of a winning bin.
pub fn real_category(bin: i32, bin_to_category: &[i32]) -> (c: i32)
    ensures
        c == category_of(bin, bin_to_category@),
{
    let index: usize = bin as usize;
    if index < bin_to_category.len() {
        bin_to_category[index]
    } else {
        bin
    }
}

/// The categories of winning bins, as bitset values.
pub open spec fn category_values(bins: Seq<i32>, bin_to_category: Seq<i32>) -> Seq<u32> {
    Seq::new(bins.len(), |i: int| category_of(bins[i], bin_to_category) as u32)
}

/// Winning bins as bitset values.
pub open spec fn bin_values(bins: Seq<i32>) -> Seq<u32> {
    Seq::new(bins.len(), |i: int| bins[i] as u32)
}

/// The two bitsets of a categorical split: that of the categories of the winning bins, and
/// that of the winning bins themselves.
pub fn set_real_threshold(cat_threshold_bins: &[i32], bin_to_category: &[i32], _offset: i32) -> (r: (
    Vec<u32>,
    Vec<u32>,
))
    ensures
        is_bitset_of(r.0@, category_values(cat_threshold_bins@, bin_to_category@)),
        is_bitset_of(r.1@, bin_values(cat_threshold_bins@)),
        forall|i: int|
            0 <= i < cat_threshold_bins@.len() && 0 <= #[trigger] cat_threshold_bins@[i] < bin_to_category@.len()
                ==> data_partition::in_bitset(
                r.0@,
                bin_to_category@[cat_threshold_bins@[i] as int] as u32 as int,
            ),
        forall|i: int|
            0 <= i < cat_threshold_bins@.len() && #[trigger] cat_threshold_bins@[i] >= bin_to_category@.len()
                ==> data_partition::in_bitset(r.0@, cat_threshold_bins@[i] as int),
        forall|i: int|
            0 <= i < cat_threshold_bins@.len() && 0 <= #[trigger] cat_threshold_bins@[i]
                ==> data_partition::in_bitset(r.1@, cat_threshold_bins@[i] as int),
{
    let n: usize = cat_threshold_bins.len();
    let mut cat_values: Vec<u32> = Vec::with_capacity(n);
    let mut inner_keys: Vec<u32> = Vec::with_capacity(n);
    let mut i: usize = 0;
    while i < n
        invariant
            i <= n,
            n == cat_threshold_bins@.len(),
            cat_values@.len() == i,
            inner_keys@.len() == i,
            forall|k: int|
                0 <= k < i ==> #[trigger] cat_values@[k] == category_of(
                    cat_threshold_bins@[k],
                    bin_to_category@,
                ) as u32,
            forall|k: int| 0 <= k < i ==> #[trigger] inner_keys@[k] == cat_threshold_bins@[k] as u32,
        decreases n - i,
    {
        let bin: i32 = cat_threshold_bins[i];
        cat_values.push(real_category(bin, bin_to_category) as u32);
        inner_keys.push(bin as u32);
        i += 1;
    }
    assert(cat_values@ =~= category_values(cat_threshold_bins@, bin_to_category@));
    assert(inner_keys@ =~= bin_values(cat_threshold_bins@));
    let real_bits: Vec<u32> = construct_bitset(cat_values.as_slice());
    let inner_bits: Vec<u32> = construct_bitset(inner_keys.as_slice());
    proof {
        let bins = cat_threshold_bins@;
        assert forall|i: int| 0 <= i < bins.len() && 0 <= #[trigger] bins[i] implies data_partition::in_bitset(
            inner_bits@,
            bins[i] as int,
        ) by {
            assert(inner_keys@[i] == bins[i] as u32);
            assert(inner_keys@.contains(bins[i] as u32));
            assert(data_partition::in_bitset(inner_bits@, (bins[i] as u32) as int));
        }
        assert forall|i: int| 0 <= i < bins.len() && 0 <= #[trigger] bins[i] < bin_to_category@.len() implies data_partition::in_bitset(
            real_bits@,
            bin_to_category@[bins[i] as int] as u32 as int,
        ) by {
            categories::winning_categories_are_in_the_bitset(real_bits@, bins, bin_to_category@, i);
        }
        assert forall|i: int| 0 <= i < bins.len() && #[trigger] bins[i] >= bin_to_category@.len() implies data_partition::in_bitset(
            real_bits@,
            bins[i] as int,
        ) by {
            categories::winning_categories_are_in_the_bitset(real_bits@, bins, bin_to_category@, i);
        }
    }
    (real_bits, inner_bits)
}

/// The positions at which the router looks winning bins up.
pub open spec fn routing_keys(bins: Seq<i32>, min_bin: i32, offset: i32) -> Seq<u32> {
    Seq::new(bins.len(), |i: int| (bins[i] - min_bin + offset) as i32 as u32)
}

/// The position of each winning bin is in range.
pub open spec fn routing_keys_fit(bins: Seq<i32>, min_bin: i32, offset: i32) -> bool {
    forall|i: int|
        0 <= i < bins.len() ==> i32::MIN <= #[trigger] bins[i] - min_bin <= i32::MAX && i32::MIN
            <= bins[i] - min_bin + offset <= i32::MAX
}

/// The bitset that routes rows by winning bins: each bin at the position at which the router
/// looks it up.
pub fn construct_inner_bitset(bins: &[i32], min_bin: i32, offset: i32) -> (bits: Vec<u32>)
    requires
        routing_keys_fit(bins@, min_bin, offset),
    ensures
        is_bitset_of(bits@, routing_keys(bins@, min_bin, offset)),
{
    let n: usize = bins.len();
    let mut keys: Vec<u32> = Vec::with_capacity(n);
    let mut i: usize = 0;
    while i < n
        invariant
            i <= n,
            n == bins@.len(),
            routing_keys_fit(bins@, min_bin, offset),
            keys@.len() == i,
            forall|k: int|
                0 <= k < i ==> #[trigger] keys@[k] == (bins@[k] - min_bin + offset) as i32 as u32,
        decreases n - i,
    {
        keys.push((bins[i] - min_bin + offset) as u32);
        i += 1;
    }
    assert(keys@ =~= routing_keys(bins@, min_bin, offset));
    construct_bitset(keys.as_slice())
}

/// A row with a stored bin goes left exactly where its bin is one of the winning bins, when
/// the bitset was built with the offset that the most frequent bin implies.
pub proof fn routing_follows_membership(
    bin: int,
    min_bin: i32,
    max_bin: i32,
    most_freq_bin: i32,
    winners: Seq<i32>,
    bits: Seq<u32>,
)
    requires
        min_bin <= bin <= max_bin,
        forall|i: int| 0 <= i < winners.len() ==> min_bin <= #[trigger] winners[i] <= max_bin,
        max_bin - min_bin + 1 <= i32::MAX,
        is_bitset_of(
            bits,
            routing_keys(
                winners,
                min_bin,
                data_partition::mfb_shift(most_freq_bin as int) as i32,
            ),
        ),
    ensures
        data_partition::spec_route_left_categorical(
            bin,
            min_bin as int,
            max_bin as int,
            most_freq_bin as int,
            bits,
        ) <==> winners.contains(bin as i32),
{
    let offset = data_partition::mfb_shift(most_freq_bin as int) as i32;
    let keys = routing_keys(winners, min_bin, offset);
    let key = (bin - min_bin + offset) as u32;
    assert(data_partition::in_bitset(bits, key as int) <==> keys.contains(key));
    if keys.contains(key) {
        let k = choose|k: int| 0 <= k < keys.len() && keys[k] == key;
        assert(winners[k] == bin);
    }
    if winners.contains(bin as i32) {
        let k = choose|k: int| 0 <= k < winners.len() && winners[k] == bin as i32;
        assert(keys[k] == key);
    }
}

/// A category set that was evaluated: the places of its bins in the compacted histogram, and the
/// split that sends them left. A set that may not be split off has a gain of minus infinity.
#[derive(Debug, Clone, PartialEq, Eq)]
pub struct CategoryCandidate {
    pub positions: Vec<u32>,
    pub split: SplitInfo,
}

/// Every place of every set stands for a bin of the feature, and none for bin 0, which holds the
/// values that are no category.
pub open spec fn positions_in_range(
    candidates: Seq<CategoryCandidate>,
    num_bin: i32,
    offset: i32,
) -> bool {
    forall|k: int, j: int|
        0 <= k < candidates.len() && 0 <= j < candidates[k].positions@.len() ==> 1 <= (
        #[trigger] candidates[k].positions@[j]) + offset < num_bin
}

/// The gain that a set has to exceed: that of the leader, minus infinity where there is none.
pub open spec fn leading_gain(candidates: Seq<CategoryCandidate>, leader: int) -> Real64 {
    if leader < 0 {
        Real64::spec_neg_infinity()
    } else {
        candidates[leader].split.gain
    }
}

/// The first set of the greatest gain among the first `n`, -1 where no gain is above minus
/// infinity.
pub open spec fn best_candidate(candidates: Seq<CategoryCandidate>, n: int) -> int
    decreases n,
{
    if n <= 0 {
        -1
    } else {
        let leader = best_candidate(candidates, n - 1);
        if candidates[n - 1].split.gain.spec_above(leading_gain(candidates, leader)) {
            n - 1
        } else {
            leader
        }
    }
}

/// No set has a greater gain than the best one, every set before it that has a number for its gain
/// has a smaller one, and there is no best set exactly where no gain is above minus infinity.
pub proof fn best_candidate_is_the_first_of_the_greatest(candidates: Seq<CategoryCandidate>, n: int)
    requires
        0 <= n <= candidates.len(),
    ensures
        ({
            let w = best_candidate(candidates, n);
            let top = leading_gain(candidates, w);
            &&& -1 <= w < n
            &&& w >= 0 ==> top.spec_above(Real64::spec_neg_infinity())
            &&& forall|k: int| 0 <= k < n ==> !(#[trigger] candidates[k]).split.gain.spec_above(top)
            &&& forall|k: int|
                0 <= k < w && !(#[trigger] candidates[k]).split.gain.spec_is_nan() ==> top.spec_above(
                    candidates[k].split.gain,
                )
            &&& w == -1 <==> forall|k: int|
                0 <= k < n ==> !(#[trigger] candidates[k]).split.gain.spec_above(
                    Real64::spec_neg_infinity(),
                )
        }),
    decreases n,
{
    if n > 0 {
        best_candidate_is_the_first_of_the_greatest(candidates, n - 1);
        let w = best_candidate(candidates, n);
        if w >= 0 {
            assert(candidates[w].split.gain.spec_above(Real64::spec_neg_infinity()));
        }
    }
}

/// The bins at the given places of the compacted histogram.
pub open spec fn shifted_bins(positions: Seq<u32>, offset: i32) -> Seq<u32> {
    Seq::new(positions.len(), |j: int| (positions[j] + offset) as u32)
}

/// The best categorical split among the evaluated sets of a feature. The first set of the greatest
/// gain wins, its bins are its places plus the offset, and there is no split exactly where no gain
/// is above minus infinity. A categorical split sends what is missing right.
pub fn find_best_threshold_categorical(
    candidates: &[CategoryCandidate],
    num_bin: i32,
    offset: i32,
) -> (r: Result<CategoricalSplit, ComputeError>)
    requires
        positions_in_range(candidates@, num_bin, offset),
    ensures
        r is Ok,
        ({
            let w = best_candidate(candidates@, candidates@.len() as int);
            let s = r->Ok_0;
            &&& w < 0 ==> s.split == (SplitInfo { default_left: false, ..SplitInfo::spec_none() })
                && s.cat_threshold@.len() == 0 && !s.spec_is_splittable()
            &&& w >= 0 ==> s.split == (SplitInfo { default_left: false, ..candidates@[w].split })
                && s.cat_threshold@ == shifted_bins(candidates@[w].positions@, offset)
                && s.spec_is_splittable()
            &&& s.spec_is_splittable() <==> exists|k: int|
                0 <= k < candidates@.len() && (#[trigger] candidates@[k]).split.gain.spec_above(
                    Real64::spec_neg_infinity(),
                )
            &&& forall|j: int| 0 <= j < s.cat_threshold@.len() ==> 1 <= #[trigger] s.cat_threshold@[j] < num_bin
        }),
{
    let ghost mut leader: int = -1;
    let mut found: bool = false;
    let mut at: usize = 0;
    let mut top: Real64 = Real64::neg_infinity();
    let mut i: usize = 0;
    while i < candidates.len()
        invariant
            i <= candidates@.len(),
            leader == best_candidate(candidates@, i as int),
            top == leading_gain(candidates@, leader),
            -1 <= leader < i,
            found == (leader >= 0),
            found ==> at == leader,
        decreases candidates@.len() - i,
    {
        if candidates[i].split.gain.above(top) {
            top = candidates[i].split.gain;
            at = i;
            found = true;
            proof {
                leader = i as int;
            }
        }
        i += 1;
    }
    proof {
        best_candidate_is_the_first_of_the_greatest(candidates@, candidates@.len() as int);
    }
    if !found {
        return Ok(CategoricalSplit::none());
    }
    let mut split: SplitInfo = candidates[at].split;
    split.default_left = false;
    let ghost positions = candidates@[at as int].positions@;
    let mut cat_threshold: Vec<u32> = Vec::with_capacity(candidates[at].positions.len());
    let mut j: usize = 0;
    while j < candidates[at].positions.len()
        invariant
            at < candidates@.len(),
            positions == candidates@[at as int].positions@,
            j <= positions.len(),
            positions_in_range(candidates@, num_bin, offset),
            cat_threshold@ == shifted_bins(positions, offset).take(j as int),
            forall|m: int| 0 <= m < j ==> 1 <= #[trigger] cat_threshold@[m] < num_bin,
        decreases positions.len() - j,
    {
        assert(1 <= candidates@[at as int].positions@[j as int] + offset < num_bin);
        let bin: i64 = candidates[at].positions[j] as i64 + offset as i64;
        cat_threshold.push(bin as u32);
        j += 1;
        assert(cat_threshold@ =~= shifted_bins(positions, offset).take(j as int));
    }
    assert(cat_threshold@ =~= shifted_bins(positions, offset));
    Ok(CategoricalSplit { split, cat_threshold })
}

} // verus!
