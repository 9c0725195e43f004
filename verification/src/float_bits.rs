//! Whole-number encodings of sensor readings.
//!
//! Readings come from the kernel as `f32` values. The library takes each one by its
//! IEEE-754 binary32 bit pattern (`f32::to_bits`) and computes, with integers only,
//! the byte that the LCD expects: the whole part of the reading, clamped to a byte,
//! or its hundreds, its last two decimal digits, or the whole part times one hundred.

use vstd::prelude::*;
use vstd::arithmetic::power2::{pow2, lemma_pow2_pos, lemma_pow2_unfold, lemma2_to64,
    lemma_pow2_strictly_increases};
use vstd::arithmetic::div_mod::lemma_mul_mod_noop_left;
use vstd::arithmetic::mul::lemma_mul_increases;
use vstd::bits::lemma_u32_shr_is_div;

verus! {

/// The sign bit of a binary32 pattern is set.
pub open spec fn f32_sign_negative(bits: u32) -> bool {
    bits >= 0x8000_0000
}

/// The biased exponent field (bits 23..31) of a binary32 pattern.
pub open spec fn f32_biased_exponent(bits: u32) -> int {
    (bits as int / 0x80_0000) % 0x100
}

/// The fraction field (bits 0..23) of a binary32 pattern.
pub open spec fn f32_fraction(bits: u32) -> int {
    bits as int % 0x80_0000
}

/// The pattern encodes a NaN.
pub open spec fn f32_is_nan(bits: u32) -> bool {
    f32_biased_exponent(bits) == 0xff && f32_fraction(bits) != 0
}

/// The pattern encodes an infinity.
pub open spec fn f32_is_infinite(bits: u32) -> bool {
    f32_biased_exponent(bits) == 0xff && f32_fraction(bits) == 0
}

/// The integer significand: a finite pattern encodes `±significand * 2^scale`.
pub open spec fn f32_significand(bits: u32) -> nat {
    if f32_biased_exponent(bits) == 0 {
        f32_fraction(bits) as nat
    } else {
        (f32_fraction(bits) + 0x80_0000) as nat
    }
}

/// The binary scale: a finite pattern encodes `±significand * 2^scale`.
pub open spec fn f32_scale(bits: u32) -> int {
    if f32_biased_exponent(bits) == 0 {
        -149
    } else {
        f32_biased_exponent(bits) - 150
    }
}

/// The magnitude of the whole part (`|trunc(x)|`) of a finite value.
pub open spec fn f32_whole_magnitude(bits: u32) -> nat {
    if f32_scale(bits) >= 0 {
        f32_significand(bits) * pow2(f32_scale(bits) as nat)
    } else {
        f32_significand(bits) / pow2((-f32_scale(bits)) as nat)
    }
}

/// A finite value has a non-zero fractional part.
pub open spec fn f32_has_fraction(bits: u32) -> bool {
    f32_scale(bits) < 0 && f32_significand(bits) % pow2((-f32_scale(bits)) as nat) != 0
}

/// `trunc(x)` of a finite value, as an integer.
pub open spec fn f32_trunc(bits: u32) -> int {
    if f32_sign_negative(bits) {
        -f32_whole_magnitude(bits)
    } else {
        f32_whole_magnitude(bits) as int
    }
}

/// `floor(x)` of a finite value, as an integer.
pub open spec fn f32_floor(bits: u32) -> int {
    if f32_sign_negative(bits) && f32_has_fraction(bits) {
        -f32_whole_magnitude(bits) - 1
    } else {
        f32_trunc(bits)
    }
}

/// A whole number clamped to the byte range.
pub open spec fn clamp_byte(v: int) -> u8 {
    if v <= 0 {
        0
    } else if v >= 255 {
        255
    } else {
        v as u8
    }
}

/// The byte of an infinity: 255 for `+inf`, 0 for `-inf`.
pub open spec fn infinity_byte(bits: u32) -> u8 {
    if f32_sign_negative(bits) { 0 } else { 255 }
}

/// `clamp(trunc(x), 0, 255)`: NaN gives 0, an infinity the nearest bound.
pub open spec fn byte_of(bits: u32) -> u8 {
    if f32_is_nan(bits) {
        0
    } else if f32_is_infinite(bits) {
        infinity_byte(bits)
    } else {
        clamp_byte(f32_trunc(bits))
    }
}

/// `clamp(floor(x), 0, 255)`.
pub open spec fn floor_byte(bits: u32) -> u8 {
    if f32_is_nan(bits) {
        0
    } else if f32_is_infinite(bits) {
        infinity_byte(bits)
    } else {
        clamp_byte(f32_floor(bits))
    }
}

/// The last two decimal digits of `floor(x)` when it is not negative; 0 for a negative
/// whole part, a NaN or an infinity (whose remainder is NaN).
pub open spec fn floor_low_digits(bits: u32) -> u8 {
    if f32_is_nan(bits) || f32_is_infinite(bits) {
        0
    } else if f32_floor(bits) >= 0 {
        (f32_floor(bits) % 100) as u8
    } else {
        0
    }
}

/// The hundreds of `floor(x)`, clamped to the byte range (0 for a negative whole part).
pub open spec fn floor_hundreds(bits: u32) -> u8 {
    if f32_is_nan(bits) {
        0
    } else if f32_is_infinite(bits) {
        infinity_byte(bits)
    } else if f32_floor(bits) >= 0 {
        clamp_byte(f32_floor(bits) / 100)
    } else {
        0
    }
}

/// `floor(x) * 100`, clamped to the byte range.
pub open spec fn floor_times_hundred(bits: u32) -> u8 {
    if f32_is_nan(bits) {
        0
    } else if f32_is_infinite(bits) {
        infinity_byte(bits)
    } else {
        clamp_byte(f32_floor(bits) * 100)
    }
}

/// What a bit pattern holds, as far as the byte encodings need it.
enum WholePart {
    NotANumber,
    Infinite { negative: bool },
    /// A finite value with the sign bit set: its whole part and floor are at most 0.
    Negative,
    /// A non-negative finite value whose whole part is `magnitude`.
    Small { magnitude: u32 },
    /// A non-negative finite value whose whole part is at least `2^23`, with its last
    /// two decimal digits.
    Large { low_digits: u8 },
}

spec fn describes(w: WholePart, bits: u32) -> bool {
    match w {
        WholePart::NotANumber => f32_is_nan(bits),
        WholePart::Infinite { negative } => f32_is_infinite(bits) && negative
            == f32_sign_negative(bits),
        WholePart::Negative => !f32_is_nan(bits) && !f32_is_infinite(bits) && f32_trunc(bits)
            <= 0 && f32_floor(bits) <= 0,
        WholePart::Small { magnitude } => !f32_is_nan(bits) && !f32_is_infinite(bits)
            && !f32_sign_negative(bits) && f32_floor(bits) == magnitude && f32_trunc(bits)
            == magnitude,
        WholePart::Large { low_digits } => !f32_is_nan(bits) && !f32_is_infinite(bits)
            && !f32_sign_negative(bits) && f32_floor(bits) == f32_trunc(bits) && f32_trunc(bits)
            >= 0x80_0000 && low_digits == f32_trunc(bits) % 100,
    }
}

/// `(s * 2^k) % 100`, by doubling `k` times.
fn low_digits_of_scaled(s: u32, k: u32) -> (r: u8)
    ensures
        r == (s as int * pow2(k as nat)) % 100,
{
    let mut r: u32 = s % 100;
    let mut i: u32 = 0;
    proof {
        lemma2_to64();
    }
    while i < k
        invariant
            i <= k,
            r < 100,
            r == (s as int * pow2(i as nat)) % 100,
        decreases k - i,
    {
        proof {
            let prev = s as int * pow2(i as nat);
            lemma_pow2_unfold((i + 1) as nat);
            assert(s as int * pow2((i + 1) as nat) == prev * 2) by (nonlinear_arith)
                requires
                    pow2((i + 1) as nat) == 2 * pow2(i as nat),
                    prev == s as int * pow2(i as nat),
            ;
            lemma_mul_mod_noop_left(prev, 2, 100);
        }
        r = (r * 2) % 100;
        i = i + 1;
    }
    r as u8
}

/// Classifies a bit pattern and computes the part of its whole value that the byte
/// encodings need.
fn whole_part(bits: u32) -> (w: WholePart)
    ensures
        describes(w, bits),
{
    let negative = bits >= 0x8000_0000;
    let exp: u32 = (bits >> 23) & 0xff;
    let frac: u32 = bits & 0x7f_ffff;
    assert((bits >> 23) & 0xff == (bits / 0x80_0000) % 0x100) by (bit_vector);
    assert(bits & 0x7f_ffff == bits % 0x80_0000) by (bit_vector);
    assert(exp == f32_biased_exponent(bits));
    assert(frac == f32_fraction(bits));
    if exp == 0xff {
        if frac != 0 {
            return WholePart::NotANumber;
        } else {
            return WholePart::Infinite { negative };
        }
    }
    if negative {
        return WholePart::Negative;
    }
    let sig: u32 = if exp == 0 { frac } else { frac + 0x80_0000 };
    assert(sig == f32_significand(bits));
    assert(sig < 0x100_0000);
    if exp >= 150 {
        let k: u32 = exp - 150;
        assert(k as int == f32_scale(bits));
        let low = low_digits_of_scaled(sig, k);
        proof {
            lemma_pow2_pos(k as nat);
            lemma_mul_increases(pow2(k as nat) as int, sig as int);
            assert(f32_whole_magnitude(bits) == sig as int * pow2(k as nat));
            assert(sig as int * pow2(k as nat) == pow2(k as nat) * sig as int) by (nonlinear_arith);
        }
        WholePart::Large { low_digits: low }
    } else {
        let shift: u32 = if exp == 0 { 149 } else { 150 - exp };
        assert(shift as int == -f32_scale(bits));
        proof {
            lemma2_to64();
            lemma_pow2_pos(shift as nat);
        }
        if shift >= 24 {
            proof {
                if shift > 24 {
                    lemma_pow2_strictly_increases(24, shift as nat);
                }
                assert(sig as nat / pow2(shift as nat) == 0) by (nonlinear_arith)
                    requires
                        sig < 0x100_0000,
                        pow2(shift as nat) >= 0x100_0000,
                ;
            }
            WholePart::Small { magnitude: 0 }
        } else {
            let magnitude = sig >> shift;
            proof {
                lemma_u32_shr_is_div(sig, shift);
            }
            WholePart::Small { magnitude }
        }
    }
}

/// The byte of a reading: its whole part (`trunc`), clamped to `0..=255`.
/// `bits` is the binary32 pattern of the reading (`f32::to_bits`).
pub fn b(bits: u32) -> (r: u8)
    ensures
        r == byte_of(bits),
{
    match whole_part(bits) {
        WholePart::NotANumber => 0,
        WholePart::Infinite { negative } => if negative { 0 } else { 255 },
        WholePart::Negative => 0,
        WholePart::Small { magnitude } => if magnitude >= 255 { 255 } else { magnitude as u8 },
        WholePart::Large { .. } => 255,
    }
}

/// The byte of `floor(x)`, clamped to `0..=255`.
pub fn floor_to_byte(bits: u32) -> (r: u8)
    ensures
        r == floor_byte(bits),
{
    match whole_part(bits) {
        WholePart::NotANumber => 0,
        WholePart::Infinite { negative } => if negative { 0 } else { 255 },
        WholePart::Negative => 0,
        WholePart::Small { magnitude } => if magnitude >= 255 { 255 } else { magnitude as u8 },
        WholePart::Large { .. } => 255,
    }
}

/// The last two decimal digits of `floor(x)` (see `floor_low_digits`).
pub fn floor_last_two_digits(bits: u32) -> (r: u8)
    ensures
        r == floor_low_digits(bits),
{
    match whole_part(bits) {
        WholePart::NotANumber => 0,
        WholePart::Infinite { .. } => 0,
        WholePart::Negative => 0,
        WholePart::Small { magnitude } => (magnitude % 100) as u8,
        WholePart::Large { low_digits } => low_digits,
    }
}

/// The hundreds of `floor(x)`, clamped to `0..=255` (see `floor_hundreds`).
pub fn floor_hundreds_byte(bits: u32) -> (r: u8)
    ensures
        r == floor_hundreds(bits),
{
    match whole_part(bits) {
        WholePart::NotANumber => 0,
        WholePart::Infinite { negative } => if negative { 0 } else { 255 },
        WholePart::Negative => 0,
        WholePart::Small { magnitude } => {
            let h = magnitude / 100;
            if h >= 255 { 255 } else { h as u8 }
        },
        WholePart::Large { .. } => 255,
    }
}

/// `floor(x) * 100`, clamped to `0..=255` (see `floor_times_hundred`).
pub fn floor_times_hundred_byte(bits: u32) -> (r: u8)
    ensures
        r == floor_times_hundred(bits),
{
    match whole_part(bits) {
        WholePart::NotANumber => 0,
        WholePart::Infinite { negative } => if negative { 0 } else { 255 },
        WholePart::Negative => 0,
        WholePart::Small { magnitude } => if magnitude >= 3 { 255 } else { (magnitude * 100) as u8 },
        WholePart::Large { .. } => 255,
    }
}

} // verus!
