//! Reading a fixed-point number out of the bit pattern of an IEEE 754
//! double: the way a number of a style payload becomes a rest length.

use crate::fixed::{COORD_MAX, UNIT};
use vstd::arithmetic::div_mod::lemma_basic_div;
use vstd::arithmetic::power2::{
    lemma2_to64, lemma_pow2_adds, lemma_pow2_pos, lemma_pow2_strictly_increases, lemma_pow2_unfold,
    pow2,
};
use vstd::prelude::*;

verus! {

/// The biased exponent field: bits 52 to 62.
pub open spec fn exponent_field(bits: u64) -> int {
    (bits as int / 0x10_0000_0000_0000) % 0x800
}

/// The fraction field: bits 0 to 51.
pub open spec fn fraction_field(bits: u64) -> int {
    bits as int % 0x10_0000_0000_0000
}

/// The sign bit.
pub open spec fn is_negative(bits: u64) -> bool {
    bits >= 0x8000_0000_0000_0000
}

/// Neither an infinity nor a NaN.
pub open spec fn is_finite(bits: u64) -> bool {
    exponent_field(bits) != 0x7ff
}

/// The integer `m` of the magnitude `m * 2^e`: the fraction, with the hidden
/// bit in front unless the number is subnormal.
pub open spec fn significand(bits: u64) -> int {
    if exponent_field(bits) == 0 {
        fraction_field(bits)
    } else {
        fraction_field(bits) + 0x10_0000_0000_0000
    }
}

/// The exponent `e` of the magnitude `m * 2^e`.
pub open spec fn binary_exponent(bits: u64) -> int {
    if exponent_field(bits) == 0 {
        -1074
    } else {
        exponent_field(bits) - 1075
    }
}

/// The magnitude in millionths, rounded to the nearest integer, a tie
/// rounded up.
pub open spec fn micro_magnitude(bits: u64) -> int {
    let m = significand(bits) * UNIT;
    let e = binary_exponent(bits);
    if e >= 0 {
        m * pow2(e as nat)
    } else {
        (m + pow2((-e - 1) as nat)) / (pow2((-e) as nat) as int)
    }
}

/// The number in millionths, where it is finite and its magnitude is at most
/// `COORD_MAX` millionths.
pub open spec fn micro_value(bits: u64) -> Option<int> {
    if !is_finite(bits) || micro_magnitude(bits) > COORD_MAX {
        None
    } else if is_negative(bits) {
        Some(-micro_magnitude(bits))
    } else {
        Some(micro_magnitude(bits))
    }
}

/// A number that has a value in millionths has one of at most `COORD_MAX`
/// in magnitude.
pub proof fn lemma_micro_value(bits: u64)
    ensures
        micro_value(bits) matches Some(v) ==> -COORD_MAX <= v <= COORD_MAX,
{
    let m = significand(bits) * UNIT;
    let e = binary_exponent(bits);
    assert(m >= 0) by (nonlinear_arith)
        requires
            m == significand(bits) * UNIT,
            significand(bits) >= 0,
    ;
    if e >= 0 {
        lemma_pow2_pos(e as nat);
        assert(m * pow2(e as nat) >= 0) by (nonlinear_arith)
            requires
                m >= 0,
                pow2(e as nat) > 0,
        ;
    } else {
        lemma_pow2_pos((-e) as nat);
        lemma_pow2_pos((-e - 1) as nat);
        vstd::arithmetic::div_mod::lemma_div_pos_is_pos(
            m + pow2((-e - 1) as nat),
            pow2((-e) as nat) as int,
        );
    }
}

/// The value of `2^96`.
proof fn lemma_pow2_96()
    ensures
        pow2(96) == 0x1_0000_0000_0000_0000_0000_0000,
{
    lemma2_to64();
    lemma_pow2_adds(64, 32);
    assert(0x1_0000_0000_0000_0000 * 0x1_0000_0000 == 0x1_0000_0000_0000_0000_0000_0000int)
        by (nonlinear_arith);
}

/// `2^k` for a small `k`.
fn power_of_two(k: u64) -> (p: u128)
    requires
        k <= 96,
    ensures
        p == pow2(k as nat),
        p <= 0x1_0000_0000_0000_0000_0000_0000,
{
    let mut p: u128 = 1;
    let mut i: u64 = 0;
    proof {
        lemma2_to64();
        lemma_pow2_96();
        if 0 < k {
            lemma_pow2_strictly_increases(0, 96);
        }
    }
    while i < k
        invariant
            i <= k <= 96,
            p == pow2(i as nat),
            p <= pow2(96),
            i < 96 ==> 2 * p <= pow2(96),
            pow2(96) == 0x1_0000_0000_0000_0000_0000_0000,
        decreases k - i,
    {
        proof {
            lemma_pow2_unfold((i + 1) as nat);
            if i + 2 <= 96 {
                lemma_pow2_unfold((i + 2) as nat);
                if i + 2 < 96 {
                    lemma_pow2_strictly_increases((i + 2) as nat, 96);
                }
            }
        }
        p = p * 2;
        i = i + 1;
    }
    p
}

/// Converts the bit pattern of a double to millionths.
pub fn micro_from_bits(bits: u64) -> (r: Option<i64>)
    ensures
        match r {
            Some(v) => micro_value(bits) == Some(v as int) && -COORD_MAX <= v <= COORD_MAX,
            None => micro_value(bits) is None,
        },
{
    let negative = bits >= 0x8000_0000_0000_0000;
    let exponent: u64 = (bits / 0x10_0000_0000_0000) % 0x800;
    let fraction: u64 = bits % 0x10_0000_0000_0000;
    if exponent == 0x7ff {
        return None;
    }
    let m: u128 = if exponent == 0 {
        fraction as u128 * (UNIT as u128)
    } else {
        (fraction as u128 + 0x10_0000_0000_0000) * (UNIT as u128)
    };
    assert(m == significand(bits) * UNIT);
    assert(m < 0x20_0000_0000_0000 * 1_000_000);
    if m == 0 {
        proof {
            let k = (-binary_exponent(bits)) as nat;
            lemma_pow2_strictly_increases((k - 1) as nat, k);
            lemma_basic_div(pow2((k - 1) as nat) as int, pow2(k) as int);
            assert(micro_magnitude(bits) == 0);
        }
        return Some(0);
    }
    if exponent >= 1075 {
        proof {
            let e = binary_exponent(bits) as nat;
            lemma_pow2_pos(e);
            assert(m * pow2(e) >= m) by (nonlinear_arith)
                requires
                    m >= 0,
                    pow2(e) >= 1,
            ;
            assert(micro_magnitude(bits) > COORD_MAX);
        }
        return None;
    }
    let shift: u64 = if exponent == 0 {
        1074
    } else {
        1075 - exponent
    };
    assert(shift == -binary_exponent(bits));
    if shift > 96 {
        proof {
            let k = shift as nat;
            lemma_pow2_96();
            lemma_pow2_unfold(k);
            if k - 1 > 96 {
                lemma_pow2_strictly_increases(96, (k - 1) as nat);
            }
            lemma_basic_div(m + pow2((k - 1) as nat), pow2(k) as int);
            assert(micro_magnitude(bits) == 0);
        }
        return Some(0);
    }
    let p: u128 = power_of_two(shift);
    let half: u128 = power_of_two(shift - 1);
    proof {
        lemma_pow2_unfold(shift as nat);
        lemma_pow2_pos(shift as nat);
    }
    let magnitude: u128 = (m + half) / p;
    assert(magnitude == micro_magnitude(bits));
    if magnitude > COORD_MAX as u128 {
        return None;
    }
    if negative {
        Some(-(magnitude as i64))
    } else {
        Some(magnitude as i64)
    }
}

} // verus!
