//! The key under which a tuned launch is remembered.
use crate::kernels::knobs;
use crate::text;
use vstd::arithmetic::power2;
use vstd::prelude::*;

verus! {

/// The regime of a launch: launches with the same key share a tuned variant.
#[derive(Clone, Debug, Hash, PartialEq, Eq)]
pub struct LaunchKey {
    /// The size band of the rows.
    pub bucket: u32,
    /// How many features the launch has.
    pub feats: u32,
    /// How many bins a feature has.
    pub bins: u32,
}

impl LaunchKey {
    /// The text of a key.
    pub open spec fn spec_text(&self) -> Seq<char> {
        "LaunchKey(bucket="@ + text::decimal(self.bucket as nat) + ",feats="@ + text::decimal(self.feats as nat)
            + ",bins="@ + text::decimal(self.bins as nat) + ")"@
    }

    /// The text under which the key is logged and stored.
    pub fn to_string(&self) -> (s: String)
        ensures
            s@ == self.spec_text(),
    {
        let mut s: String = "LaunchKey(bucket=".to_owned();
        text::push_decimal(&mut s, self.bucket as u64);
        s.append(",feats=");
        text::push_decimal(&mut s, self.feats as u64);
        s.append(",bins=");
        text::push_decimal(&mut s, self.bins as u64);
        s.append(")");
        s
    }
}

/// The logarithm to base two, rounded down; 0 for 0.
pub open spec fn floor_log2(n: nat) -> nat
    decreases n,
{
    if n <= 1 {
        0
    } else {
        1 + floor_log2(n / 2)
    }
}

/// The size band of a number of rows: the logarithm to base two, rounded down, and 0 for no
/// rows.
pub fn size_band(rows: usize) -> (band: u32)
    ensures
        band == floor_log2(rows as nat),
{
    let mut n: usize = rows;
    let mut band: u32 = 0;
    proof {
        if rows >= 1 {
            band_is_a_power_of_two_range(rows as nat);
            vstd::arithmetic::power2::lemma2_to64();
            if floor_log2(rows as nat) > 64 {
                vstd::arithmetic::power2::lemma_pow2_strictly_increases(64, floor_log2(rows as nat));
            }
        }
    }
    while n > 1
        invariant
            floor_log2(rows as nat) == band + floor_log2(n as nat),
            band + floor_log2(n as nat) <= 64,
        decreases n,
    {
        n = n / 2;
        band = band + 1;
    }
    band
}

/// A band holds the numbers from its power of two up to the next one.
pub proof fn band_is_a_power_of_two_range(n: nat)
    requires
        n >= 1,
    ensures
        power2::pow2(floor_log2(n)) <= n < power2::pow2(floor_log2(n) + 1),
    decreases n,
{
    if n == 1 {
        vstd::arithmetic::power2::lemma2_to64();
    } else {
        band_is_a_power_of_two_range(n / 2);
        let b = floor_log2(n / 2);
        vstd::arithmetic::power2::lemma_pow2_unfold(b + 1);
        vstd::arithmetic::power2::lemma_pow2_unfold(b + 2);
    }
}

/// More rows are never in a lower band.
pub proof fn band_is_monotone(a: nat, b: nat)
    requires
        a <= b,
    ensures
        floor_log2(a) <= floor_log2(b),
    decreases b,
{
    if a > 1 {
        band_is_monotone(a / 2, b / 2);
    }
}

/// Two numbers of rows share a band exactly where they lie between the same powers of two.
pub proof fn same_band_same_range(a: nat, k: nat)
    requires
        a >= 1,
    ensures
        floor_log2(a) == k <==> power2::pow2(k) <= a < power2::pow2(k + 1),
{
    band_is_a_power_of_two_range(a);
    let b = floor_log2(a);
    if b < k {
        if b + 1 < k {
            vstd::arithmetic::power2::lemma_pow2_strictly_increases(b + 1, k);
        }
    } else if b > k {
        if k + 1 < b {
            vstd::arithmetic::power2::lemma_pow2_strictly_increases(k + 1, b);
        }
    }
}

/// Whether launches are tuned, by the value of the environment's switch: only "0" turns it
/// off.
pub fn autotune_enabled(switch: Option<&str>) -> (r: bool)
    ensures
        r == !(switch matches Some(s) && s@ == "0"@),
{
    knobs::on_unless_zero(switch)
}

/// The name of the cache in which tuned variants persist.
pub fn cache_namespace_id() -> (s: String)
    ensures
        s@ == "rocm:0"@,
{
    "rocm:0".to_owned()
}

} // verus!
