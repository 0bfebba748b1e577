//! Reading the fields that arrive in another form than the one they are kept
//! in: the legality flag, which arrives as text, and the numbers that arrive as
//! decimals.

use vstd::prelude::*;
use vstd::arithmetic::power2::{lemma2_to64, lemma2_to64_rest, lemma_pow2_strictly_increases, pow2};
use vstd::bits::{lemma_u64_shl_is_mul, lemma_u64_shr_is_div};
use crate::error::StatsError;

verus! {

/// What the legality flag of a deck stands for.
pub open spec fn bool_of(text: Seq<char>) -> Result<bool, StatsError> {
    if text == "true"@ {
        Ok(true)
    } else if text == "false"@ {
        Ok(false)
    } else {
        Err(StatsError::MalformedBoolean)
    }
}

/// Reads the legality flag of a deck, which arrives as text: `"true"` or
/// `"false"`. Anything else is a `MalformedBoolean` error, never `false`.
pub fn bool_from_str(text: &str) -> (flag: Result<bool, StatsError>)
    ensures
        flag == bool_of(text@),
{
    let given = text.to_owned();
    if given == "true".to_owned() {
        Ok(true)
    } else if given == "false".to_owned() {
        Ok(false)
    } else {
        Err(StatsError::MalformedBoolean)
    }
}

/// The exponent field of a double-precision number, given by its bits.
pub open spec fn float_exponent(bits: u64) -> nat {
    ((bits >> 52) & 0x7ff) as nat
}

/// The fraction field of a double-precision number, given by its bits.
pub open spec fn float_fraction(bits: u64) -> nat {
    (bits & 0xf_ffff_ffff_ffff) as nat
}

/// Whether the sign bit of a double-precision number is set.
pub open spec fn float_sign(bits: u64) -> bool {
    bits >> 63 == 1
}

/// Whether the bits are those of a number: not of an infinity, nor of a NaN.
pub open spec fn float_is_number(bits: u64) -> bool {
    float_exponent(bits) != 0x7ff
}

/// Whether the number is zero, of either sign.
pub open spec fn float_is_zero(bits: u64) -> bool {
    float_exponent(bits) == 0 && float_fraction(bits) == 0
}

/// The whole part of the magnitude of a number: the magnitude rounded toward
/// zero.
///
/// A number with exponent field `e` of at least 1 has the magnitude
/// `(2^52 + fraction) * 2^(e - 1075)`; with an exponent field below 1023, and
/// so for zero and the subnormal numbers too, the magnitude is below one.
pub open spec fn float_whole(bits: u64) -> nat {
    let e = float_exponent(bits);
    let significand = pow2(52) + float_fraction(bits);
    if e < 1023 {
        0
    } else if e < 1075 {
        significand / pow2((1075 - e) as nat)
    } else {
        significand * pow2((e - 1075) as nat)
    }
}

/// The non-negative integer that a double-precision number stands for, its
/// fraction cut off: an `InvalidNumeric` error for a NaN, an infinity, a number
/// below zero, and a number too large for a `usize`.
pub open spec fn int_of_float(bits: u64) -> Result<usize, StatsError> {
    if !float_is_number(bits) {
        Err(StatsError::InvalidNumeric)
    } else if float_sign(bits) && !float_is_zero(bits) {
        Err(StatsError::InvalidNumeric)
    } else if float_whole(bits) > usize::MAX {
        Err(StatsError::InvalidNumeric)
    } else {
        Ok(float_whole(bits) as usize)
    }
}

/// Reads a mana cost, a rating or a timestamp that arrives as a decimal
/// number, and cuts off its fraction. The number is given by the bits of its
/// double-precision form (`f64::to_bits`).
///
/// A number that is no non-negative integer after that is an `InvalidNumeric`
/// error: it is never taken for zero.
pub fn float_to_int(bits: u64) -> (number: Result<usize, StatsError>)
    ensures
        number == int_of_float(bits),
{
    let exponent: u64 = (bits >> 52) & 0x7ff;
    let fraction: u64 = bits & 0xf_ffff_ffff_ffff;
    let negative: bool = (bits >> 63) == 1;
    if exponent == 0x7ff {
        return Err(StatsError::InvalidNumeric);
    }
    if negative && !(exponent == 0 && fraction == 0) {
        return Err(StatsError::InvalidNumeric);
    }
    if exponent < 1023 {
        return Ok(0);
    }
    let significand: u64 = fraction | 0x10_0000_0000_0000;
    proof {
        lemma2_to64();
        lemma2_to64_rest();
        assert(fraction < 0x10_0000_0000_0000) by (bit_vector)
            requires
                fraction == bits & 0xf_ffff_ffff_ffff,
        ;
        assert(significand == fraction + 0x10_0000_0000_0000) by (bit_vector)
            requires
                fraction < 0x10_0000_0000_0000,
                significand == fraction | 0x10_0000_0000_0000,
        ;
        assert(exponent <= 0x7ff) by (bit_vector)
            requires
                exponent == (bits >> 52) & 0x7ff,
        ;
    }
    let whole: u64 = if exponent < 1075 {
        let shift: u64 = 1075 - exponent;
        proof {
            lemma_u64_shr_is_div(significand, shift);
        }
        significand >> shift
    } else {
        let shift: u64 = exponent - 1075;
        if shift > 11 {
            proof {
                if shift > 12 {
                    lemma_pow2_strictly_increases(12, shift as nat);
                }
                assert(significand * pow2(shift as nat) >= 0x1_0000_0000_0000_0000) by (nonlinear_arith)
                    requires
                        significand >= 0x10_0000_0000_0000,
                        pow2(shift as nat) >= 0x1000,
                ;
            }
            return Err(StatsError::InvalidNumeric);
        }
        proof {
            if shift < 11 {
                lemma_pow2_strictly_increases(shift as nat, 11);
            }
            assert(significand * pow2(shift as nat) <= 0xffff_ffff_ffff_ffff) by (nonlinear_arith)
                requires
                    significand < 0x20_0000_0000_0000,
                    pow2(shift as nat) <= 0x800,
            ;
            lemma_u64_shl_is_mul(significand, shift);
        }
        significand << shift
    };
    if whole > usize::MAX as u64 {
        Err(StatsError::InvalidNumeric)
    } else {
        Ok(whole as usize)
    }
}

} // verus!
