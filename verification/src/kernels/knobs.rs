//! Switches and numbers that are read from the environment, as functions of their text.
use crate::text;
use vstd::prelude::*;

verus! {

fn is_one_char(s: &str, c: char) -> (r: bool)
    ensures
        r == (s@ == seq![c]),
{
    if s.unicode_len() != 1 {
        return false;
    }
    let d: char = s.get_char(0);
    if d == c {
        assert(s@ =~= seq![c]);
        true
    } else {
        assert(s@[0] != seq![c][0]);
        false
    }
}

/// A switch that is on unless its text is exactly "0".
pub fn on_unless_zero(switch: Option<&str>) -> (r: bool)
    ensures
        r == !(switch matches Some(s) && s@ == "0"@),
{
    proof {
        reveal_strlit("0");
        assert("0"@ =~= seq!['0']);
    }
    match switch {
        Some(s) => !is_one_char(s, '0'),
        None => true,
    }
}

/// A switch that is off unless its text is exactly "1".
pub fn off_unless_one(switch: Option<&str>) -> (r: bool)
    ensures
        r == (switch matches Some(s) && s@ == "1"@),
{
    proof {
        reveal_strlit("1");
        assert("1"@ =~= seq!['1']);
    }
    match switch {
        Some(s) => is_one_char(s, '1'),
        None => false,
    }
}

/// An override: 0 leaves the decision to the environment, 1 forces it on, 2 off.
pub open spec fn override_code(v: Option<bool>) -> u8 {
    match v {
        None => 0,
        Some(true) => 1,
        Some(false) => 2,
    }
}

fn code_of(v: Option<bool>) -> (code: u8)
    ensures
        code == override_code(v),
{
    match v {
        None => 0,
        Some(b) => if b {
            1
        } else {
            2
        },
    }
}

/// Force the fused host partition on or off, or leave it to the environment.
pub fn set_fused_partition_override(code: &mut u8, v: Option<bool>)
    ensures
        *final(code) == override_code(v),
{
    *code = code_of(v);
}

/// Force the fused scan-and-scatter stage on or off, or leave it to the environment.
pub fn set_partition_fuse_bc_override(code: &mut u8, v: Option<bool>)
    ensures
        *final(code) == override_code(v),
{
    *code = code_of(v);
}

/// Whether the host partition reads its bins through the rows: as the override says, and
/// otherwise unless the environment says "0".
pub fn ondevice_fused_partition_enabled(code: u8, switch: Option<&str>) -> (r: bool)
    ensures
        r == (if code == 1 {
            true
        } else if code == 2 {
            false
        } else {
            !(switch matches Some(s) && s@ == "0"@)
        }),
{
    if code == 1 {
        true
    } else if code == 2 {
        false
    } else {
        on_unless_zero(switch)
    }
}

/// Whether the second and third partition stage are fused: as the override says, and otherwise
/// only where the environment says "1".
pub fn partition_fuse_bc_enabled(code: u8, switch: Option<&str>) -> (r: bool)
    ensures
        r == (if code == 1 {
            true
        } else if code == 2 {
            false
        } else {
            switch matches Some(s) && s@ == "1"@
        }),
{
    if code == 1 {
        true
    } else if code == 2 {
        false
    } else {
        off_unless_one(switch)
    }
}

/// An override decides whatever the environment says, and taking it back restores the
/// environment's decision.
pub proof fn override_decides(v: Option<bool>)
    ensures
        override_code(Some(true)) == 1,
        override_code(Some(false)) == 2,
        v is None <==> override_code(v) == 0,
{
}

/// Whether gradients stay resident: unless the environment says "0".
pub fn grad_residency_enabled(switch: Option<&str>) -> (r: bool)
    ensures
        r == !(switch matches Some(s) && s@ == "0"@),
{
    on_unless_zero(switch)
}

/// Whether a tree's scores are scattered in one pass: unless the environment says "0".
pub fn score_fused_scatter_enabled(switch: Option<&str>) -> (r: bool)
    ensures
        r == !(switch matches Some(s) && s@ == "0"@),
{
    on_unless_zero(switch)
}

/// Whether both children of a split are scanned in one launch: unless the environment says "0".
pub fn sibling_copack_enabled(switch: Option<&str>) -> (r: bool)
    ensures
        r == !(switch matches Some(s) && s@ == "0"@),
{
    on_unless_zero(switch)
}

/// Whether the bins of a tree are uploaded once: unless the environment says "0".
pub fn ondevice_bin_hoist_enabled(switch: Option<&str>) -> (r: bool)
    ensures
        r == !(switch matches Some(s) && s@ == "0"@),
{
    on_unless_zero(switch)
}

/// Whether histograms are built and scanned in one double-precision pass: only where the
/// environment says "1".
pub fn on_device_f64_fused_build(switch: Option<&str>) -> (r: bool)
    ensures
        r == (switch matches Some(s) && s@ == "1"@),
{
    off_unless_one(switch)
}

/// Whether the device is drained between the phases of a growth: only where the environment says
/// "1".
pub fn grow_drain_enabled(switch: Option<&str>) -> (r: bool)
    ensures
        r == (switch matches Some(s) && s@ == "1"@),
{
    off_unless_one(switch)
}

/// The value of a decimal digit.
pub open spec fn digit_value(c: char) -> Option<int> {
    if '0' <= c <= '9' {
        Some(c as int - '0' as int)
    } else {
        None
    }
}

/// The value of a text of digits, `None` where it holds anything else.
pub open spec fn digits_value(s: Seq<char>) -> Option<int>
    decreases s.len(),
{
    if s.len() == 0 {
        Some(0)
    } else {
        match (digits_value(s.drop_last()), digit_value(s.last())) {
            (Some(high), Some(d)) => Some(10 * high + d),
            _ => None,
        }
    }
}

/// A text without its leading plus sign.
pub open spec fn unsigned_part(s: Seq<char>) -> Seq<char> {
    if s.len() > 0 && s[0] == '+' {
        s.skip(1)
    } else {
        s
    }
}

/// The number of at most `limit` that a text stands for: at least one digit, with an optional plus
/// sign in front.
pub open spec fn number_up_to(s: Seq<char>, limit: int) -> Option<int> {
    let digits = unsigned_part(s);
    match digits_value(digits) {
        Some(v) => if digits.len() > 0 && v <= limit {
            Some(v)
        } else {
            None
        },
        None => None,
    }
}

/// The positive 32-bit number that a text stands for.
pub open spec fn positive_u32(s: Seq<char>) -> Option<u32> {
    match number_up_to(s, u32::MAX as int) {
        Some(v) => if v > 0 {
            Some(v as u32)
        } else {
            None
        },
        None => None,
    }
}

proof fn bad_prefix(s: Seq<char>, i: int)
    requires
        0 <= i <= s.len(),
        digits_value(s.take(i)) is None,
    ensures
        digits_value(s) is None,
    decreases s.len() - i,
{
    if i == s.len() {
        assert(s.take(i) =~= s);
    } else {
        assert(s.take(i + 1).drop_last() =~= s.take(i));
        bad_prefix(s, i + 1);
    }
}

proof fn large_prefix(s: Seq<char>, i: int, limit: int)
    requires
        0 <= limit,
        0 <= i <= s.len(),
        digits_value(s.take(i)) matches Some(v) && v > limit,
    ensures
        digits_value(s) matches Some(v) ==> v > limit,
    decreases s.len() - i,
{
    if i == s.len() {
        assert(s.take(i) =~= s);
    } else {
        let next = s.take(i + 1);
        assert(next.drop_last() =~= s.take(i));
        if digits_value(next) is None {
            bad_prefix(s, i + 1);
        } else {
            large_prefix(s, i + 1, limit);
        }
    }
}

/// The number of at most `limit` that a text stands for.
pub fn parse_number(s: &str, limit: u64) -> (r: Option<u64>)
    ensures
        match r {
            Some(v) => number_up_to(s@, limit as int) == Some(v as int),
            None => number_up_to(s@, limit as int) is None,
        },
{
    let n: usize = s.unicode_len();
    let start: usize = if n > 0 && s.get_char(0) == '+' {
        1
    } else {
        0
    };
    let ghost digits = unsigned_part(s@);
    assert(digits =~= s@.skip(start as int));
    let mut acc: u64 = 0;
    let mut i: usize = start;
    assert(digits.take(0) =~= Seq::<char>::empty());
    while i < n
        invariant
            start <= i <= n,
            n == s@.len(),
            start <= 1,
            digits == s@.skip(start as int),
            digits == unsigned_part(s@),
            acc <= limit,
            digits_value(digits.take(i - start)) == Some(acc as int),
        decreases n - i,
    {
        let c: char = s.get_char(i);
        proof {
            let next = digits.take(i - start + 1);
            assert(next.drop_last() =~= digits.take(i - start));
            assert(next.last() == c);
        }
        if c < '0' || c > '9' {
            proof {
                bad_prefix(digits, i - start + 1);
            }
            return None;
        }
        let d: u64 = (c as u32 - '0' as u32) as u64;
        if d > limit || acc > (limit - d) / 10 {
            proof {
                large_prefix(digits, i - start + 1, limit as int);
            }
            return None;
        }
        acc = 10 * acc + d;
        i += 1;
    }
    assert(digits.take(n - start) =~= digits);
    if n > start {
        Some(acc)
    } else {
        None
    }
}

/// The positive number that a setting's text stands for, `None` where it is unset, is no
/// number, or is 0.
pub fn parse_positive_u32_env(value: Option<&str>) -> (r: Option<u32>)
    ensures
        r == (match value {
            Some(s) => positive_u32(s@),
            None => None,
        }),
{
    match value {
        None => None,
        Some(s) => match parse_number(s, u32::MAX as u64) {
            Some(v) => if v > 0 {
                Some(v as u32)
            } else {
                None
            },
            None => None,
        },
    }
}

} // verus!
