//! Colours: the shading stages' three unit-range channels, and the 8-bit
//! pixels that the framebuffer stores.

use vstd::prelude::*;
use vstd::arithmetic::power2::*;
use vstd::arithmetic::mul::*;
use vstd::arithmetic::div_mod::*;
use vstd::bits::*;
use crate::binary32::Binary32;
use crate::binary32::SIGN_BIT;
use crate::binary32::lemma_whole_units;
use crate::binary32::lemma_zero_magnitude;
use crate::vector::Vector3;

verus! {

/// A pixel: red, green, blue and opacity, eight bits each.
#[derive(Clone, Copy, Debug, PartialEq, Eq)]
pub struct Color {
    pub r: u8,
    pub g: u8,
    pub b: u8,
    pub a: u8,
}

/// The 8-bit level of a channel: the value held to the range from zero to
/// one, multiplied by 255, with the fractional part dropped. A NaN gives zero.
pub open spec fn quantized(c: Binary32) -> int {
    if c.is_nan_spec() || c.sign() {
        0
    } else if c.magnitude() >= pow2(149) {
        255
    } else {
        (255 * c.magnitude()) / (pow2(149) as int)
    }
}

/// Computes [`quantized`].
///
/// In single precision the product with 255 is rounded before its fraction
/// is dropped; [`lemma_rounding_keeps_level`] shows that the exact quotient
/// computed here is the same byte.
pub fn quantize(c: Binary32) -> (level: u8)
    ensures
        level == quantized(c),
{
    let b: u32 = c.bits;
    let e: u32 = (b >> 23) & 0xFF;
    let f: u32 = b & 0x7F_FFFF;
    assert(e == (b / 0x80_0000) % 0x100 && f == b % 0x80_0000) by (bit_vector)
        requires
            e == (b >> 23) & 0xFF,
            f == b & 0x7F_FFFF,
    ;
    proof {
        lemma2_to64();
        lemma_pow2_pos(149);
    }
    if (e == 255 && f != 0) || b >= SIGN_BIT {
        return 0;
    }
    if e >= 127 {
        proof {
            let p = pow2((e - 1) as nat) as int;
            if e > 127 {
                lemma_pow2_strictly_increases(126, (e - 1) as nat);
            }
            lemma_pow2_adds(23, 126);
            assert(0x80_0000 * (pow2(126) as int) <= c.significand() * p) by (nonlinear_arith)
                requires
                    0x80_0000 <= c.significand(),
                    0 < pow2(126) <= p,
            ;
        }
        return 255;
    }
    if e < 119 {
        proof {
            let m = c.magnitude();
            if e == 0 {
                lemma_pow2_strictly_increases(31, 149);
            } else {
                let p = pow2((e - 1) as nat) as int;
                lemma_pow2_pos((e - 1) as nat);
                lemma_mul_strict_inequality(c.significand(), 0x100_0000, p);
                lemma_pow2_adds(32, (e - 1) as nat);
                if e + 31 < 149 {
                    lemma_pow2_strictly_increases((e + 31) as nat, 149);
                }
                assert(255 * m < 0x1_0000_0000 * p) by (nonlinear_arith)
                    requires
                        0 <= m < 0x100_0000 * p,
                ;
            }
            lemma_basic_div(255 * m, pow2(149) as int);
        }
        return 0;
    }
    let product: u64 = (0x80_0000 + f) as u64 * 255;
    let shift: u64 = (150 - e) as u64;
    proof {
        let p = pow2((e - 1) as nat) as int;
        lemma_pow2_pos((e - 1) as nat);
        lemma_mul_strict_inequality(c.significand(), 0x100_0000, p);
        lemma_pow2_adds(24, (e - 1) as nat);
        if e + 23 < 149 {
            lemma_pow2_strictly_increases((e + 23) as nat, 149);
        }
        assert(255 * (c.significand() * p) == (255 * c.significand()) * p) by (nonlinear_arith);
        lemma_whole_units(product as int, e as int);
        lemma_u64_shr_is_div(product, shift);
        if shift > 24 {
            lemma_pow2_strictly_increases(24, shift as nat);
        }
        lemma_div_is_ordered_by_denominator(product as int, 0x100_0000, pow2(shift as nat) as int);
    }
    (product >> shift) as u8
}

/// A level is a byte.
pub proof fn lemma_quantized_is_a_byte(c: Binary32)
    ensures
        0 <= quantized(c) <= 255,
{
    let unit = pow2(149) as int;
    let m = c.magnitude();
    lemma_pow2_pos(149);
    if !c.is_nan_spec() && !c.sign() && m < unit {
        lemma_zero_magnitude(c);
        assert(0 <= 255 * m <= 255 * unit - 1) by (nonlinear_arith)
            requires
                0 <= m < unit,
        ;
        lemma_div_is_ordered(0, 255 * m, unit);
        lemma_div_is_ordered(255 * m, 255 * unit - 1, unit);
        lemma_fundamental_div_mod_converse(255 * unit - 1, unit, 254, unit - 1);
    }
}

/// `n / d` rounded to the nearest whole number, a tie going to the even one.
pub open spec fn round_half_even(n: int, d: int) -> int {
    let q = n / d;
    let r = n % d;
    if 2 * r > d || (2 * r == d && q % 2 == 1) {
        q + 1
    } else {
        q
    }
}

/// What single-precision multiplication makes of `c * 255`, in units of
/// 2^-149, for a normal `c` between zero and one: the exact product of the
/// significand and 255 has 31 or 32 bits, of which 24 are kept, rounded to
/// nearest with ties to even.
pub open spec fn times_255_rounded(c: Binary32) -> int {
    let product = 255 * c.significand();
    let ulp: int = if product < 0x8000_0000 {
        128
    } else {
        256
    };
    round_half_even(product, ulp) * ulp * pow2((c.exponent() - 1) as nat)
}

/// Rounding the product with 255 to single precision before dropping its
/// fraction gives the same level as dropping the fraction of the exact
/// product: the rounded product never reaches the next whole number.
pub proof fn lemma_rounding_keeps_level(c: Binary32)
    requires
        !c.sign(),
        1 <= c.exponent() <= 126,
    ensures
        times_255_rounded(c) / (pow2(149) as int) == quantized(c),
{
    let e = c.exponent();
    let sig = c.significand();
    let product = 255 * sig;
    let ulp: int = if product < 0x8000_0000 {
        128
    } else {
        256
    };
    let rounded = round_half_even(product, ulp) * ulp;
    let scale = pow2((e - 1) as nat) as int;
    let k = (150 - e) as nat;
    lemma2_to64();
    lemma_pow2_pos(149);
    lemma_pow2_pos((e - 1) as nat);
    // The level is the exact product over 2^k.
    lemma_mul_strict_inequality(sig, 0x100_0000, scale);
    lemma_pow2_adds(24, (e - 1) as nat);
    if e + 23 < 149 {
        lemma_pow2_strictly_increases((e + 23) as nat, 149);
    }
    assert(255 * (sig * scale) == product * scale) by (nonlinear_arith)
        requires
            product == 255 * sig,
    ;
    lemma_whole_units(product, e);
    lemma_whole_units(rounded, e);
    // Both quotients by 2^24 agree, and 2^k is a multiple of 2^24.
    let s: u64 = sig as u64;
    lemma_rounded_product_top_bits(s);
    assert(rounded / 0x100_0000 == product / 0x100_0000);
    lemma_pow2_adds(24, (k - 24) as nat);
    lemma_pow2_pos((k - 24) as nat);
    lemma_div_denominator(product, 0x100_0000, pow2((k - 24) as nat) as int);
    lemma_div_denominator(rounded, 0x100_0000, pow2((k - 24) as nat) as int);
}

/// For a 24-bit significand with its top bit set, rounding the product with
/// 255 to 24 significant bits leaves the bits above the 24th as they are.
proof fn lemma_rounded_product_top_bits(s: u64)
    requires
        0x80_0000 <= s < 0x100_0000,
    ensures
        ({
            let product = 255 * s as int;
            let ulp: int = if product < 0x8000_0000 {
                128
            } else {
                256
            };
            (round_half_even(product, ulp) * ulp) / 0x100_0000 == product / 0x100_0000
        }),
{
    let p: u64 = (255 * s) as u64;
    if p < 0x8000_0000 {
        let q: u64 = p / 128;
        let r: u64 = p % 128;
        let up: u64 = if 2 * r > 128 || (2 * r == 128 && q % 2 == 1) {
            1
        } else {
            0
        };
        let t: u64 = ((q + up) * 128) as u64;
        assert(t / 0x100_0000 == p / 0x100_0000) by (bit_vector)
            requires
                p % 255 == 0,
                0x7F80_0000 <= p,
                p < 0xFF00_0000,
                p < 0x8000_0000,
                q == p / 128,
                r == p % 128,
                up == 1 || up == 0,
                up == 1 ==> r >= 64,
                t == (q + up) * 128,
        ;
    } else {
        let q: u64 = p / 256;
        let r: u64 = p % 256;
        let up: u64 = if 2 * r > 256 || (2 * r == 256 && q % 2 == 1) {
            1
        } else {
            0
        };
        let t: u64 = ((q + up) * 256) as u64;
        assert(t / 0x100_0000 == p / 0x100_0000) by (bit_vector)
            requires
                p % 255 == 0,
                0x7F80_0000 <= p,
                p < 0xFF00_0000,
                0x8000_0000 <= p,
                q == p / 256,
                r == p % 256,
                up == 1 || up == 0,
                up == 1 ==> r >= 128,
                t == (q + up) * 256,
        ;
    }
}

impl Color {
    pub fn new(r: u8, g: u8, b: u8, a: u8) -> (c: Color)
        ensures
            c == (Color { r, g, b, a }),
    {
        Color { r, g, b, a }
    }

    /// Opaque black.
    pub fn black() -> (c: Color)
        ensures
            c == (Color { r: 0, g: 0, b: 0, a: 255 }),
    {
        Color { r: 0, g: 0, b: 0, a: 255 }
    }

    /// Opaque white.
    pub fn white() -> (c: Color)
        ensures
            c == (Color { r: 255, g: 255, b: 255, a: 255 }),
    {
        Color { r: 255, g: 255, b: 255, a: 255 }
    }

    /// The opaque pixel that a colour with unit-range channels becomes.
    pub open spec fn from_unit_spec(rgb: Vector3) -> Color {
        Color {
            r: quantized(rgb.x) as u8,
            g: quantized(rgb.y) as u8,
            b: quantized(rgb.z) as u8,
            a: 255,
        }
    }

    #[verifier::when_used_as_spec(from_unit_spec)]
    pub fn from_unit(rgb: Vector3) -> (c: Color)
        ensures
            c == Color::from_unit_spec(rgb),
    {
        Color { r: quantize(rgb.x), g: quantize(rgb.y), b: quantize(rgb.z), a: 255 }
    }
}

} // verus!
