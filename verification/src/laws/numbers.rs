//! How numbers are compared, rounded, written and read, and how counts and times add up.
use crate::kernels::best_split;
use crate::kernels::best_split::FeatureMeta;
use crate::kernels::fixed_build;
use crate::kernels::grow_ledger;
use crate::kernels::grow_ledger::{GrowCounters, GrowPhaseNs, LedgerPhase};
use crate::kernels::grow_resident::DeviceStep;
use crate::kernels::histogram_arena::ArenaState;
use crate::kernels::knobs;
use crate::kernels::resident_build;
use crate::kernels::row_partition;
use crate::number::Real64;
use crate::text;
use vstd::arithmetic::power2;
use vstd::arithmetic::power2::pow2;
use vstd::prelude::*;

verus! {

/// The magnitude of a double-precision number in units of its smallest positive one: the fraction
/// bits, with the hidden bit where the exponent is not zero, moved left by the exponent less one.
pub open spec fn units(magnitude: int) -> int {
    let fraction = magnitude % 0x10_0000_0000_0000;
    let exponent = magnitude / 0x10_0000_0000_0000;
    if exponent == 0 {
        fraction
    } else {
        (fraction + 0x10_0000_0000_0000) * pow2((exponent - 1) as nat)
    }
}

/// A finite number in units of the smallest positive one.
pub open spec fn value_in_units(x: Real64) -> int {
    if x.bits >= 0x8000_0000_0000_0000 {
        -units(x.bits - 0x8000_0000_0000_0000)
    } else {
        units(x.bits as int)
    }
}

proof fn units_in_binade(m: int)
    requires
        0 <= m,
    ensures
        ({
            let e = m / 0x10_0000_0000_0000;
            &&& 0 <= units(m) < 0x10_0000_0000_0000 * pow2(e as nat)
            &&& e > 0 ==> units(m) >= 0x10_0000_0000_0000 * pow2((e - 1) as nat)
        }),
{
    let e = m / 0x10_0000_0000_0000;
    let fraction = m % 0x10_0000_0000_0000;
    if e == 0 {
        power2::lemma2_to64();
    } else {
        let p = pow2((e - 1) as nat) as int;
        power2::lemma_pow2_pos((e - 1) as nat);
        power2::lemma_pow2_unfold(e as nat);
        assert(0x10_0000_0000_0000 * p <= (fraction + 0x10_0000_0000_0000) * p < 0x10_0000_0000_0000 * (2 * p))
            by (nonlinear_arith)
            requires
                0 <= fraction < 0x10_0000_0000_0000,
                p > 0,
        ;
    }
}

proof fn units_increase(a: int, b: int)
    requires
        0 <= a < b,
    ensures
        units(a) < units(b),
{
    let ea = a / 0x10_0000_0000_0000;
    let eb = b / 0x10_0000_0000_0000;
    units_in_binade(a);
    units_in_binade(b);
    if ea == eb {
        if ea > 0 {
            let p = pow2((ea - 1) as nat) as int;
            let fa = a % 0x10_0000_0000_0000;
            let fb = b % 0x10_0000_0000_0000;
            power2::lemma_pow2_pos((ea - 1) as nat);
            assert((fa + 0x10_0000_0000_0000) * p < (fb + 0x10_0000_0000_0000) * p) by (nonlinear_arith)
                requires
                    fa < fb,
                    p > 0,
            ;
        }
    } else {
        let p = pow2(ea as nat) as int;
        let q = pow2((eb - 1) as nat) as int;
        if ea < eb - 1 {
            power2::lemma_pow2_strictly_increases(ea as nat, (eb - 1) as nat);
        }
        assert(0x10_0000_0000_0000 * p <= 0x10_0000_0000_0000 * q) by (nonlinear_arith)
            requires
                p <= q,
        ;
    }
}

/// One finite number is above another exactly where it is the greater one, and the same exactly where
/// both are equal, whatever the sign of a zero is.
pub proof fn finite_numbers_compare_by_value(a: Real64, b: Real64)
    requires
        a.spec_is_finite(),
        b.spec_is_finite(),
    ensures
        a.spec_above(b) <==> value_in_units(a) > value_in_units(b),
        a.spec_same(b) <==> value_in_units(a) == value_in_units(b),
{
    let ma = a.magnitude();
    let mb = b.magnitude();
    assert(units(0) == 0);
    if ma > 0 {
        units_increase(0, ma);
    }
    if mb > 0 {
        units_increase(0, mb);
    }
    if ma < mb {
        units_increase(ma, mb);
    } else if mb < ma {
        units_increase(mb, ma);
    }
}

/// A number is finite exactly where its exponent bits are not all set. With all of them set it is an
/// infinity where no fraction bit is set, and not a number else.
pub proof fn exponent_tells_finite_numbers(x: Real64)
    ensures
        x.spec_is_finite() <==> (x.bits as int / 0x10_0000_0000_0000) % 0x800 != 0x7ff,
        x.spec_is_nan() <==> (x.bits as int / 0x10_0000_0000_0000) % 0x800 == 0x7ff && x.bits as int
            % 0x10_0000_0000_0000 != 0,
        Real64::spec_zero().spec_is_finite(),
        value_in_units(Real64::spec_zero()) == 0,
        !Real64::spec_neg_infinity().spec_is_finite(),
        !Real64::spec_neg_infinity().spec_is_nan(),
        x.spec_is_finite() ==> x.spec_above(Real64::spec_neg_infinity()),
        x.spec_is_nan() ==> !x.spec_above(x) && !x.spec_same(x),
        !x.spec_is_nan() ==> x.spec_same(x),
{
}

/// A number is its mantissa over a power of two.
pub proof fn mantissa_over_halvings_is_the_number(x: Real64)
    requires
        x.spec_is_finite(),
    ensures
        best_split::halvings(x) <= 1074,
        best_split::mantissa(x) * pow2((1074 - best_split::halvings(x)) as nat) == units(x.magnitude()),
{
    power2::lemma2_to64();
    let m = x.magnitude();
    let f = best_split::mantissa(x);
    if m < 0x10_0000_0000_0000 {
        assert(m / 0x10_0000_0000_0000 == 0);
        assert(pow2(0) == 1);
        assert(f * 1 == f);
    } else {
        let e = m / 0x10_0000_0000_0000;
        assert(e >= 1);
        assert(1074 - best_split::halvings(x) == e - 1);
        assert(f == m % 0x10_0000_0000_0000 + 0x10_0000_0000_0000);
    }
}

/// Rounding takes the nearest integer: it is off by at most a half, and where it is off by a half it is
/// even.
pub proof fn rounding_is_to_the_nearest(m: int, p: int)
    requires
        0 <= m,
        0 < p,
    ensures
        -p <= 2 * (m - best_split::nearest_even(m, p) * p) <= p,
        2 * (m - best_split::nearest_even(m, p) * p) == p || 2 * (m - best_split::nearest_even(m, p) * p) == -p
            ==> best_split::nearest_even(m, p) % 2 == 0,
{
    let q = m / p;
    let r = m % p;
    vstd::arithmetic::div_mod::lemma_fundamental_div_mod(m, p);
    vstd::arithmetic::div_mod::lemma_mod_bound(m, p);
    assert(p * q == q * p) by (nonlinear_arith);
    assert((q + 1) * p == q * p + p) by (nonlinear_arith);
}

/// The count of a number is the nearest integer to its magnitude, with its sign, held within the range
/// of a count; not-a-number counts nothing.
pub proof fn count_is_the_nearest_integer(x: Real64)
    ensures
        i32::MIN <= best_split::count_of(x) <= i32::MAX,
        x.spec_is_nan() ==> best_split::count_of(x) == 0,
        !x.spec_is_nan() && x.bits < 0x8000_0000_0000_0000 && 0 <= best_split::rounded_magnitude(x) <= i32::MAX
            ==> best_split::count_of(x) == best_split::rounded_magnitude(x),
        !x.spec_is_nan() && x.bits >= 0x8000_0000_0000_0000 && 0 <= best_split::rounded_magnitude(x) <= i32::MAX
            ==> best_split::count_of(x) == -best_split::rounded_magnitude(x),
        !x.spec_is_nan() && x.bits < 0x8000_0000_0000_0000 && best_split::rounded_magnitude(x) > i32::MAX
            ==> best_split::count_of(x) == i32::MAX,
        !x.spec_is_nan() && x.bits >= 0x8000_0000_0000_0000 && best_split::rounded_magnitude(x) > -i32::MIN
            ==> best_split::count_of(x) == i32::MIN,
        best_split::halvings(x) <= 0 ==> best_split::rounded_magnitude(x) == best_split::mantissa(x) * pow2(
            (-best_split::halvings(x)) as nat,
        ),
        best_split::halvings(x) > 0 ==> best_split::rounded_magnitude(x) == best_split::nearest_even(
            best_split::mantissa(x),
            pow2(best_split::halvings(x) as nat) as int,
        ),
{
}

/// A number that is written in decimal digits is read back.
pub proof fn decimals_are_read_back(n: nat)
    ensures
        knobs::digits_value(text::decimal(n)) == Some(n as int),
        text::decimal(n).len() >= 1,
        '0' <= text::decimal(n)[0] <= '9',
        n >= 10 ==> text::decimal(n)[0] != '0',
    decreases n,
{
    if n >= 10 {
        decimals_are_read_back(n / 10);
        let high = text::decimal(n / 10);
        let last = text::digit_char((n % 10) as int);
        assert(high.push(last).drop_last() =~= high);
        assert(knobs::digit_value(last) == Some((n % 10) as int));
        if n / 10 < 10 {
            assert(high[0] == text::digit_char((n / 10) as int));
        }
    } else {
        let only = seq![text::digit_char(n as int)];
        assert(only.drop_last() =~= Seq::empty());
        assert(knobs::digits_value(Seq::empty()) == Some(0int));
        assert(knobs::digit_value(only.last()) == Some(n as int));
    }
}

/// A setting that is a number in decimal digits is that number, with or without a plus sign, where it
/// is within the limit; a larger one is no setting.
pub proof fn settings_read_decimals(n: nat, limit: int)
    ensures
        n <= limit ==> knobs::number_up_to(text::decimal(n), limit) == Some(n as int),
        n <= limit ==> knobs::number_up_to(seq!['+'] + text::decimal(n), limit) == Some(n as int),
        n > limit ==> knobs::number_up_to(text::decimal(n), limit) is None,
        knobs::number_up_to(Seq::empty(), limit) is None,
        knobs::number_up_to(seq!['+'], limit) is None,
        0 < n <= u32::MAX ==> knobs::positive_u32(text::decimal(n)) == Some(n as u32),
        n == 0 || n > u32::MAX ==> knobs::positive_u32(text::decimal(n)) is None,
{
    decimals_are_read_back(n);
    let plus = seq!['+'] + text::decimal(n);
    assert(plus.skip(1) =~= text::decimal(n));
    assert(plus[0] == '+');
    assert(seq!['+'].skip(1) =~= Seq::empty());
}

/// A setting with a character that is no digit, past a leading plus sign, is no number.
pub proof fn other_characters_are_no_number(s: Seq<char>, limit: int, i: int)
    requires
        0 <= i < s.len(),
        !('0' <= s[i] <= '9'),
        i > 0 || s[i] != '+',
    ensures
        knobs::number_up_to(s, limit) is None,
{
    let digits = knobs::unsigned_part(s);
    let k = if s[0] == '+' {
        i - 1
    } else {
        i
    };
    assert(digits[k] == s[i]);
    no_number_with_another_character(digits, k);
}

proof fn no_number_with_another_character(s: Seq<char>, i: int)
    requires
        0 <= i < s.len(),
        !('0' <= s[i] <= '9'),
    ensures
        knobs::digits_value(s) is None,
    decreases s.len(),
{
    if i < s.len() - 1 {
        no_number_with_another_character(s.drop_last(), i);
    }
}

/// A negative number is written with a minus sign before the digits of its magnitude, any other number
/// as its digits alone.
pub proof fn minus_sign_stands_for_negative_numbers(n: int)
    ensures
        text::signed_decimal(n).len() >= 1,
        n < 0 <==> text::signed_decimal(n)[0] == '-',
        n < 0 ==> knobs::digits_value(text::signed_decimal(n).skip(1)) == Some(-n),
        n >= 0 ==> knobs::digits_value(text::signed_decimal(n)) == Some(n),
{
    if n < 0 {
        decimals_are_read_back((-n) as nat);
        assert(text::signed_decimal(n).skip(1) =~= text::decimal((-n) as nat));
        assert(text::signed_decimal(n)[0] == '-');
    } else {
        decimals_are_read_back(n as nat);
    }
}

/// A leaf with too few rows gets one group. Any other leaf gets as many groups as keep the launches at
/// or below the target, at least one and at most sixteen.
pub proof fn groups_fill_the_target(num_features: int, leaf_rows: int, min_rows: int, target: int)
    requires
        0 <= num_features,
        0 <= target,
    ensures
        ({
            let p = row_partition::group_count(num_features, leaf_rows, min_rows, target);
            &&& 1 <= p <= 16
            &&& leaf_rows < min_rows ==> p == 1
            &&& num_features == 0 ==> p == 1
            &&& p > 1 ==> p * num_features <= target
            &&& p < 16 && leaf_rows >= min_rows && num_features > 0 ==> (p + 1) * num_features > target
        }),
{
    if num_features > 0 {
        let q = target / num_features;
        let rest = target % num_features;
        vstd::arithmetic::div_mod::lemma_fundamental_div_mod(target, num_features);
        vstd::arithmetic::div_mod::lemma_mod_bound(target, num_features);
        assert(num_features * q == q * num_features) by (nonlinear_arith);
        assert((q + 1) * num_features == q * num_features + num_features) by (nonlinear_arith);
        assert(num_features < target ==> q >= 1) by (nonlinear_arith)
            requires
                0 < num_features,
                target == num_features * q + rest,
                0 <= rest < num_features,
        ;
        if q > 16 {
            assert(16 * num_features <= q * num_features) by (nonlinear_arith)
                requires
                    q > 16,
                    num_features > 0,
            ;
        }
        assert((1 + 1) * num_features == num_features + num_features) by (nonlinear_arith);
    }
}

/// The bounds of the features are their first cells, and the number of all cells behind the last.
pub proof fn bounds_end_with_all_cells(slot_off: Seq<usize>, slot_len: usize, i: int)
    requires
        0 <= i < slot_off.len(),
        slot_off[i] <= u32::MAX,
        slot_len <= u32::MAX,
    ensures
        row_partition::with_sentinel(slot_off, slot_len).len() == slot_off.len() + 1,
        row_partition::with_sentinel(slot_off, slot_len)[i] == slot_off[i],
        row_partition::with_sentinel(slot_off, slot_len).last() == slot_len,
{
}

/// The widest feature is one of the features.
pub proof fn widest_is_reached(bounds: Seq<u32>, n: int) -> (f: int)
    requires
        0 < n < bounds.len(),
        forall|i: int, j: int| 0 <= i <= j < bounds.len() ==> #[trigger] bounds[i] <= #[trigger] bounds[j],
    ensures
        0 <= f < n,
        bounds[f + 1] - bounds[f] == row_partition::widest(bounds, n),
    decreases n,
{
    assert(bounds[n - 1] <= bounds[n]);
    if n == 1 {
        assert(row_partition::widest(bounds, 0) == 0);
        0
    } else {
        let before = widest_is_reached(bounds, n - 1);
        if bounds[n] - bounds[n - 1] > row_partition::widest(bounds, n - 1) {
            n - 1
        } else {
            before
        }
    }
}

/// The rows are dealt to the groups in blocks of 256, one block after the other, over and over.
pub proof fn rows_are_dealt_in_blocks(k: int, groups: int)
    requires
        0 <= k,
        0 < groups,
    ensures
        0 <= fixed_build::group_of(k, groups) < groups,
        k < 256 ==> fixed_build::group_of(k, groups) == 0,
        fixed_build::group_of(k + 256, groups) == (if fixed_build::group_of(k, groups) + 1 == groups {
            0
        } else {
            fixed_build::group_of(k, groups) + 1
        }),
        (k + 1) % 256 != 0 ==> fixed_build::group_of(k + 1, groups) == fixed_build::group_of(k, groups),
{
    let b = k / 256;
    assert((k + 256) / 256 == b + 1);
    assert((k + 1) % 256 != 0 ==> (k + 1) / 256 == b);
    vstd::arithmetic::div_mod::lemma_mod_bound(b, groups);
    vstd::arithmetic::div_mod::lemma_fundamental_div_mod(b, groups);
    let q = b / groups;
    let r = b % groups;
    assert(groups * q == q * groups) by (nonlinear_arith);
    if r + 1 == groups {
        assert(b + 1 == (q + 1) * groups) by (nonlinear_arith)
            requires
                b == q * groups + r,
                r + 1 == groups,
        ;
        vstd::arithmetic::div_mod::lemma_fundamental_div_mod_converse(b + 1, groups, q + 1, 0);
    } else {
        vstd::arithmetic::div_mod::lemma_fundamental_div_mod_converse(b + 1, groups, q, r + 1);
    }
    if k < 256 {
        vstd::arithmetic::div_mod::lemma_small_mod(0, groups as nat);
    }
}

/// The time of one phase.
pub open spec fn time_of(p: GrowPhaseNs, phase: LedgerPhase) -> u64 {
    match phase {
        LedgerPhase::Wall => p.wall,
        LedgerPhase::Setup => p.setup,
        LedgerPhase::Upload => p.upload,
        LedgerPhase::Rootfold => p.rootfold,
        LedgerPhase::Build => p.build,
        LedgerPhase::Subtract => p.subtract,
        LedgerPhase::Scan => p.scan,
        LedgerPhase::Pick => p.pick,
        LedgerPhase::Partition => p.partition,
        LedgerPhase::Treesplit => p.treesplit,
        LedgerPhase::Reduce => p.reduce,
        LedgerPhase::Tail => p.tail,
    }
}

/// Booking a time adds it to the time of its phase, modulo 2^64.
pub proof fn times_are_booked_to_their_phase(p: GrowPhaseNs, phase: LedgerPhase, ns: u64)
    ensures
        time_of(p, phase) + ns <= u64::MAX ==> time_of(grow_ledger::booked(p, phase, ns), phase) == time_of(p, phase)
            + ns,
        time_of(p, phase) + ns > u64::MAX ==> time_of(grow_ledger::booked(p, phase, ns), phase)
            + 0x1_0000_0000_0000_0000 == time_of(p, phase) + ns,
{
    let after = grow_ledger::booked(p, phase, ns);
    match phase {
        LedgerPhase::Wall => {
            assert(after.wall == grow_ledger::time_sum(p.wall, ns));
        },
        LedgerPhase::Setup => {
            assert(after.setup == grow_ledger::time_sum(p.setup, ns));
        },
        LedgerPhase::Upload => {
            assert(after.upload == grow_ledger::time_sum(p.upload, ns));
        },
        LedgerPhase::Rootfold => {
            assert(after.rootfold == grow_ledger::time_sum(p.rootfold, ns));
        },
        LedgerPhase::Build => {
            assert(after.build == grow_ledger::time_sum(p.build, ns));
        },
        LedgerPhase::Subtract => {
            assert(after.subtract == grow_ledger::time_sum(p.subtract, ns));
        },
        LedgerPhase::Scan => {
            assert(after.scan == grow_ledger::time_sum(p.scan, ns));
        },
        LedgerPhase::Pick => {
            assert(after.pick == grow_ledger::time_sum(p.pick, ns));
        },
        LedgerPhase::Partition => {
            assert(after.partition == grow_ledger::time_sum(p.partition, ns));
        },
        LedgerPhase::Treesplit => {
            assert(after.treesplit == grow_ledger::time_sum(p.treesplit, ns));
        },
        LedgerPhase::Reduce => {
            assert(after.reduce == grow_ledger::time_sum(p.reduce, ns));
        },
        LedgerPhase::Tail => {
            assert(after.tail == grow_ledger::time_sum(p.tail, ns));
        },
    }
}

/// Booking a time leaves the time of every other phase alone.
#[verifier::rlimit(60)]
pub proof fn times_are_booked_to_no_other_phase(p: GrowPhaseNs, phase: LedgerPhase, other: LedgerPhase, ns: u64)
    requires
        other != phase,
    ensures
        time_of(grow_ledger::booked(p, phase, ns), other) == time_of(p, other),
{
    let after = grow_ledger::booked(p, phase, ns);
    match other {
        LedgerPhase::Wall => {
            assert(after.wall == p.wall);
        },
        LedgerPhase::Setup => {
            assert(after.setup == p.setup);
        },
        LedgerPhase::Upload => {
            assert(after.upload == p.upload);
        },
        LedgerPhase::Rootfold => {
            assert(after.rootfold == p.rootfold);
        },
        LedgerPhase::Build => {
            assert(after.build == p.build);
        },
        LedgerPhase::Subtract => {
            assert(after.subtract == p.subtract);
        },
        LedgerPhase::Scan => {
            assert(after.scan == p.scan);
        },
        LedgerPhase::Pick => {
            assert(after.pick == p.pick);
        },
        LedgerPhase::Partition => {
            assert(after.partition == p.partition);
        },
        LedgerPhase::Treesplit => {
            assert(after.treesplit == p.treesplit);
        },
        LedgerPhase::Reduce => {
            assert(after.reduce == p.reduce);
        },
        LedgerPhase::Tail => {
            assert(after.tail == p.tail);
        },
    }
}

/// While profiling, every step counts as one launch; a build counts where it is marked for it, and a
/// build that scans counts as such. Without profiling nothing counts.
pub proof fn steps_count_once(c: GrowCounters, step: DeviceStep)
    requires
        c.launches < u64::MAX,
        c.rootbuild_u64 < u64::MAX,
        c.f64_fused < u64::MAX,
    ensures
        grow_ledger::counted_step(c, step, true).launches == c.launches + 1,
        grow_ledger::counted_step(c, step, true).syncs == c.syncs,
        grow_ledger::counted_step(c, step, true).rootbuild_u64 == c.rootbuild_u64 + (if step is Build
            && step->Build_counted {
            1int
        } else {
            0
        }),
        grow_ledger::counted_step(c, step, true).f64_fused == c.f64_fused + (if step is BuildAndScan {
            1int
        } else {
            0
        }),
        grow_ledger::counted_step(c, step, false) == c,
{
}

/// The slots of a pool are taken in turn: behind the last one comes the first.
pub proof fn slots_are_taken_in_turn<H>(arena: ArenaState<H>, slot: int)
    requires
        0 <= slot < arena.slots.len(),
    ensures
        0 <= arena.next_slot(slot) < arena.slots.len(),
        slot < arena.slots.len() - 1 ==> arena.next_slot(slot) == slot + 1,
        slot == arena.slots.len() - 1 ==> arena.next_slot(slot) == 0,
        arena.rotated().smaller == arena.next_slot(arena.parent),
        arena.rotated().larger == arena.parent,
        arena.rotated().leaf_slots == arena.leaf_slots,
{
}

/// The largest magnitude among fixed-point values is reached by one of them, and none is larger.
pub proof fn largest_fixed_is_reached(grad: Seq<i64>, hess: Seq<i64>, n: int) -> (k: int)
    requires
        0 < n <= grad.len(),
        n <= hess.len(),
    ensures
        0 <= k < n,
        resident_build::largest_fixed(grad, hess, n) == resident_build::spec_magnitude(grad[k])
            || resident_build::largest_fixed(grad, hess, n) == resident_build::spec_magnitude(hess[k]),
        forall|i: int|
            0 <= i < n ==> -resident_build::largest_fixed(grad, hess, n) <= #[trigger] grad[i]
                <= resident_build::largest_fixed(grad, hess, n),
        forall|i: int|
            0 <= i < n ==> -resident_build::largest_fixed(grad, hess, n) <= #[trigger] hess[i]
                <= resident_build::largest_fixed(grad, hess, n),
    decreases n,
{
    if n == 1 {
        assert(resident_build::largest_fixed(grad, hess, 0) == 0);
        0
    } else {
        let before = largest_fixed_is_reached(grad, hess, n - 1);
        if resident_build::largest_fixed(grad, hess, n) == resident_build::largest_fixed(grad, hess, n - 1) {
            before
        } else {
            n - 1
        }
    }
}

/// A feature with more than two bins and missing values is searched in both directions, forward first
/// and backward second, with the default side the one that the direction leaves the missing values on.
/// Any other feature is searched once.
pub proof fn missing_values_are_tried_on_both_sides(f: FeatureMeta)
    ensures
        f.num_bin > 2 && !f.is_categorical && !(f.missing_type is NoMissing) ==> {
            &&& f.tasks().len() == 2
            &&& !f.tasks()[0].reverse && !f.tasks()[0].assume_out_default_left
            &&& f.tasks()[1].reverse && f.tasks()[1].assume_out_default_left
            &&& f.tasks()[0].skip_default_bin == (f.missing_type is Zero)
            &&& f.tasks()[1].skip_default_bin == (f.missing_type is Zero)
            &&& f.tasks()[0].na_as_missing == (f.missing_type is NaN)
            &&& f.tasks()[1].na_as_missing == (f.missing_type is NaN)
        },
        !(f.num_bin > 2 && !f.is_categorical && !(f.missing_type is NoMissing)) ==> {
            &&& f.tasks().len() == 1
            &&& f.tasks()[0].reverse == !f.is_categorical
            &&& !f.tasks()[0].skip_default_bin
            &&& !f.tasks()[0].na_as_missing
            &&& f.tasks()[0].assume_out_default_left == (!(f.missing_type is NaN) && !f.is_categorical)
        },
        forall|i: int|
            0 <= i < f.tasks().len() ==> {
                &&& (#[trigger] f.tasks()[i]).inner_feature_index == f.inner_feature_index
                &&& f.tasks()[i].is_categorical == f.is_categorical
                &&& f.tasks()[i].hist_offset == f.hist_offset
                &&& f.tasks()[i].mfb_offset == f.mfb_offset
                &&& f.tasks()[i].num_bin == f.num_bin
                &&& f.tasks()[i].default_bin == f.default_bin
                &&& f.tasks()[i].rand_threshold == f.rand_threshold
                &&& f.num_bin <= i32::MAX ==> f.tasks()[i].is_one_hot == (f.is_categorical && f.num_bin
                    <= f.max_cat_to_onehot)
            },
{
}

/// The tasks of the features stand one behind the other, feature by feature.
pub proof fn tasks_stand_feature_by_feature(features: Seq<FeatureMeta>, n: int, i: int)
    requires
        0 <= i < n <= features.len(),
    ensures
        best_split::tasks_of(features, i).len() + features[i].tasks().len() <= best_split::tasks_of(features, n).len(),
        forall|k: int|
            0 <= k < features[i].tasks().len() ==> #[trigger] features[i].tasks()[k] == best_split::tasks_of(
                features,
                n,
            )[best_split::tasks_of(features, i).len() + k],
        best_split::tasks_of(features, 0).len() == 0,
        best_split::tasks_of(features, i + 1).len() == best_split::tasks_of(features, i).len()
            + features[i].tasks().len(),
    decreases n,
{
    if i < n - 1 {
        tasks_stand_feature_by_feature(features, n - 1, i);
    }
}

} // verus!
