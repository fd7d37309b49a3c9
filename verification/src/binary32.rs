//! IEEE 754 single-precision values, held as their 32-bit patterns.
//!
//! The renderer's shading stages compute in single precision; the raster
//! stages only need to classify such values, order them and round them to
//! whole pixels. This module gives those operations an exact meaning: every
//! pattern that is not a NaN stands for an integer number of units of
//! 2^-149, the spacing of the smallest subnormals, so that order and
//! rounding can be stated in plain integer arithmetic.

use vstd::prelude::*;
use vstd::arithmetic::power2::*;
use vstd::arithmetic::mul::*;
use vstd::arithmetic::div_mod::*;
use vstd::bits::*;

verus! {

/// Pattern whose only set bit is the sign.
pub const SIGN_BIT: u32 = 0x8000_0000;

/// Pattern of positive infinity: all exponent bits set, fraction zero.
pub const INFINITY_BITS: u32 = 0x7F80_0000;

/// A single-precision value, identified by its bit pattern.
///
/// Equality of two `Binary32` is equality of patterns: `-0.0` and `0.0`
/// differ, and a NaN equals itself. Numeric comparison is [`Binary32::lt`].
#[derive(Clone, Copy, Debug, PartialEq, Eq)]
pub struct Binary32 {
    pub bits: u32,
}

impl Binary32 {
    /// The sign bit is set (true of `-0.0`, of negative infinity and of some NaNs).
    pub open spec fn sign(self) -> bool {
        self.bits >= SIGN_BIT
    }

    /// The eight exponent bits, as a number in `0..=255`.
    pub open spec fn exponent(self) -> int {
        (self.bits as int / 0x80_0000) % 0x100
    }

    /// The twenty-three fraction bits, as a number below 2^23.
    pub open spec fn fraction(self) -> int {
        self.bits as int % 0x80_0000
    }

    pub open spec fn is_nan_spec(self) -> bool {
        self.exponent() == 255 && self.fraction() != 0
    }

    pub open spec fn is_infinite_spec(self) -> bool {
        self.exponent() == 255 && self.fraction() == 0
    }

    pub open spec fn is_finite_spec(self) -> bool {
        self.exponent() < 255
    }

    /// The significand with its hidden bit: subnormals and zeros have none.
    pub open spec fn significand(self) -> int {
        if self.exponent() == 0 {
            self.fraction()
        } else {
            0x80_0000 + self.fraction()
        }
    }

    /// The absolute value in units of 2^-149.
    ///
    /// Exact for every finite pattern. An infinity gets 2^277, which lies
    /// above every finite magnitude; for a NaN the number has no meaning.
    pub open spec fn magnitude(self) -> int {
        if self.exponent() == 0 {
            self.significand()
        } else {
            self.significand() * pow2((self.exponent() - 1) as nat)
        }
    }

    /// The value in units of 2^-149 (see [`Binary32::magnitude`]).
    pub open spec fn scaled(self) -> int {
        if self.sign() {
            -self.magnitude()
        } else {
            self.magnitude()
        }
    }

    /// Numeric `<`: false as soon as one side is a NaN, and `-0.0` is not
    /// below `0.0`.
    pub open spec fn lt_spec(self, other: Binary32) -> bool {
        !self.is_nan_spec() && !other.is_nan_spec() && self.scaled() < other.scaled()
    }

    /// A whole number held to the range of `i32`.
    pub open spec fn saturated(v: int) -> int {
        if v < i32::MIN {
            i32::MIN as int
        } else if v > i32::MAX {
            i32::MAX as int
        } else {
            v
        }
    }

    /// The value with its fractional part dropped, held to the range of
    /// `i32`; zero for a NaN.
    pub open spec fn truncated(self) -> int {
        if self.is_nan_spec() {
            0
        } else {
            let whole = self.magnitude() / (pow2(149) as int);
            Self::saturated(if self.sign() { -whole } else { whole })
        }
    }

    /// The greatest whole number that is not above the value, held to the
    /// range of `i32`; zero for a NaN.
    pub open spec fn floored(self) -> int {
        if self.is_nan_spec() {
            0
        } else {
            Self::saturated(self.scaled() / (pow2(149) as int))
        }
    }

    /// The least whole number that is not below the value, held to the range
    /// of `i32`; zero for a NaN.
    pub open spec fn ceiled(self) -> int {
        if self.is_nan_spec() {
            0
        } else {
            Self::saturated(-((-self.scaled()) / (pow2(149) as int)))
        }
    }

    /// Numeric `>= 0`: true of both zeros, false of a NaN.
    pub open spec fn at_least_zero_spec(self) -> bool {
        !self.is_nan_spec() && self.scaled() >= 0
    }

    /// The lesser of two values; where one is a NaN, the other.
    pub open spec fn least(self, other: Binary32) -> Binary32 {
        if self.is_nan_spec() {
            other
        } else if other.is_nan_spec() {
            self
        } else if other.lt_spec(self) {
            other
        } else {
            self
        }
    }

    /// The greater of two values; where one is a NaN, the other.
    pub open spec fn greatest(self, other: Binary32) -> Binary32 {
        if self.is_nan_spec() {
            other
        } else if other.is_nan_spec() {
            self
        } else if self.lt_spec(other) {
            other
        } else {
            self
        }
    }

    pub fn from_bits(bits: u32) -> (r: Binary32)
        ensures
            r.bits == bits,
    {
        Binary32 { bits }
    }

    pub fn to_bits(self) -> (r: u32)
        ensures
            r == self.bits,
    {
        self.bits
    }

    /// Positive infinity, the depth of a pixel that nothing was drawn on.
    pub fn infinity() -> (r: Binary32)
        ensures
            r.bits == INFINITY_BITS,
            r.is_infinite_spec(),
            !r.sign(),
    {
        Binary32 { bits: INFINITY_BITS }
    }

    #[verifier::when_used_as_spec(is_nan_spec)]
    pub fn is_nan(self) -> (r: bool)
        ensures
            r == self.is_nan_spec(),
    {
        let b: u32 = self.bits;
        assert(((b & 0x7FFF_FFFF) > 0x7F80_0000) <==> ((b / 0x80_0000) % 0x100 == 255 && b
            % 0x80_0000 != 0)) by (bit_vector);
        (b & 0x7FFF_FFFF) > INFINITY_BITS
    }

    #[verifier::when_used_as_spec(is_finite_spec)]
    pub fn is_finite(self) -> (r: bool)
        ensures
            r == self.is_finite_spec(),
    {
        let b: u32 = self.bits;
        assert(((b & 0x7FFF_FFFF) < 0x7F80_0000) <==> ((b / 0x80_0000) % 0x100 < 255))
            by (bit_vector);
        (b & 0x7FFF_FFFF) < INFINITY_BITS
    }

    /// Numeric `<` on two values.
    #[verifier::when_used_as_spec(lt_spec)]
    pub fn lt(self, other: Binary32) -> (r: bool)
        ensures
            r == self.lt_spec(other),
    {
        if self.is_nan() || other.is_nan() {
            return false;
        }
        proof {
            lemma_key_orders_as_value(self, other);
        }
        self.order_key() < other.order_key()
    }

    /// The pattern read as a sign and a 31-bit magnitude.
    spec fn key(self) -> int {
        let m = self.bits as int % 0x8000_0000;
        if self.sign() {
            -m
        } else {
            m
        }
    }

    fn order_key(self) -> (k: i64)
        ensures
            k == self.key(),
    {
        let b: u32 = self.bits;
        assert((b & 0x7FFF_FFFF) == b % 0x8000_0000) by (bit_vector);
        let m: u32 = b & 0x7FFF_FFFF;
        if b >= SIGN_BIT {
            -(m as i64)
        } else {
            m as i64
        }
    }

    /// The exponent bits of the pattern.
    fn exponent_bits(self) -> (e: u32)
        ensures
            e == self.exponent(),
    {
        let b: u32 = self.bits;
        assert((b >> 23) & 0xFF == (b / 0x80_0000) % 0x100) by (bit_vector);
        (b >> 23) & 0xFF
    }

    /// The whole part of a magnitude below 2^31, and whether that is all of it.
    fn split(self) -> (r: (u64, bool))
        requires
            self.exponent() < 158,
        ensures
            r.0 == self.magnitude() / (pow2(149) as int),
            r.0 < 0x8000_0000,
            r.1 <==> self.magnitude() % (pow2(149) as int) == 0,
            !r.1 ==> r.0 < 0x100_0000,
    {
        let b: u32 = self.bits;
        let e: u32 = self.exponent_bits();
        let f: u32 = b & 0x7F_FFFF;
        let m: u32 = b & 0x7FFF_FFFF;
        assert(f == b % 0x80_0000 && m == b % 0x8000_0000) by (bit_vector)
            requires
                f == b & 0x7F_FFFF,
                m == b & 0x7FFF_FFFF,
        ;
        proof {
            lemma_whole_part(self);
            lemma_fraction_part(self);
            lemma2_to64();
        }
        if e < 127 {
            return (0, m == 0);
        }
        let sig: u64 = (0x80_0000 + f) as u64;
        if e >= 150 {
            let shift: u64 = (e - 150) as u64;
            proof {
                lemma_pow2_strictly_increases(shift as nat, 8);
                assert(sig * pow2(shift as nat) < 0x100_0000 * 0x80) by (nonlinear_arith)
                    requires
                        sig < 0x100_0000,
                        0 < pow2(shift as nat) <= 0x80,
                ;
                lemma_u64_shl_is_mul(sig, shift);
            }
            (sig << shift, true)
        } else {
            let shift: u64 = (150 - e) as u64;
            proof {
                lemma_u64_shr_is_div(sig, shift);
                lemma_pow2_pos(shift as nat);
                lemma_div_nonincreasing(sig as int, pow2(shift as nat) as int);
            }
            let whole: u64 = sig >> shift;
            proof {
                let p = pow2(shift as nat) as int;
                lemma_fundamental_div_mod(sig as int, p);
                lemma_mod_bound(sig as int, p);
                assert(whole * p == p * whole) by (nonlinear_arith);
                lemma_u64_shl_is_mul(whole, shift);
            }
            (whole, (whole << shift) == sig)
        }
    }

    /// The value cut down to a whole number, toward zero. What lies beyond
    /// the range of `i32` becomes its nearest end, and a NaN becomes zero.
    pub fn to_i32(self) -> (r: i32)
        ensures
            r == self.truncated(),
    {
        if self.is_nan() {
            return 0;
        }
        let negative = self.bits >= SIGN_BIT;
        if self.exponent_bits() >= 158 {
            proof {
                lemma_beyond_i32(self);
            }
            return if negative {
                i32::MIN
            } else {
                i32::MAX
            };
        }
        let (whole, _) = self.split();
        if negative {
            (-(whole as i64)) as i32
        } else {
            whole as i32
        }
    }

    /// The value rounded down to a whole number. What lies beyond the range
    /// of `i32` becomes its nearest end, and a NaN becomes zero.
    pub fn floor_to_i32(self) -> (r: i32)
        ensures
            r == self.floored(),
    {
        if self.is_nan() {
            return 0;
        }
        let negative = self.bits >= SIGN_BIT;
        proof {
            lemma_pow2_pos(149);
            lemma_div_of_negated(self.magnitude(), pow2(149) as int);
        }
        if self.exponent_bits() >= 158 {
            proof {
                lemma_beyond_i32(self);
            }
            return if negative {
                i32::MIN
            } else {
                i32::MAX
            };
        }
        let (whole, exact) = self.split();
        if !negative {
            whole as i32
        } else if exact {
            (-(whole as i64)) as i32
        } else {
            (-(whole as i64) - 1) as i32
        }
    }

    /// The value rounded up to a whole number. What lies beyond the range of
    /// `i32` becomes its nearest end, and a NaN becomes zero.
    pub fn ceil_to_i32(self) -> (r: i32)
        ensures
            r == self.ceiled(),
    {
        if self.is_nan() {
            return 0;
        }
        let negative = self.bits >= SIGN_BIT;
        proof {
            lemma_pow2_pos(149);
            lemma_div_of_negated(self.magnitude(), pow2(149) as int);
        }
        if self.exponent_bits() >= 158 {
            proof {
                lemma_beyond_i32(self);
            }
            return if negative {
                i32::MIN
            } else {
                i32::MAX
            };
        }
        let (whole, exact) = self.split();
        if negative {
            (-(whole as i64)) as i32
        } else if exact {
            whole as i32
        } else {
            (whole + 1) as i32
        }
    }

    /// Numeric `>= 0`.
    #[verifier::when_used_as_spec(at_least_zero_spec)]
    pub fn at_least_zero(self) -> (r: bool)
        ensures
            r == self.at_least_zero_spec(),
    {
        if self.is_nan() {
            return false;
        }
        proof {
            lemma_zero_magnitude(self);
        }
        self.bits <= SIGN_BIT
    }
}

/// Between two patterns, the one with the smaller exponent and fraction bits
/// has the smaller magnitude.
proof fn lemma_magnitude_increases(a: Binary32, b: Binary32)
    requires
        a.bits as int % 0x8000_0000 < b.bits as int % 0x8000_0000,
    ensures
        a.magnitude() < b.magnitude(),
{
    let ea = a.exponent();
    let eb = b.exponent();
    let fa = a.fraction();
    let fb = b.fraction();
    assert(a.bits as int % 0x8000_0000 == ea * 0x80_0000 + fa);
    assert(b.bits as int % 0x8000_0000 == eb * 0x80_0000 + fb);
    if ea == eb {
        if ea != 0 {
            let p = pow2((ea - 1) as nat) as int;
            lemma_pow2_pos((ea - 1) as nat);
            lemma_mul_strict_inequality(0x80_0000 + fa, 0x80_0000 + fb, p);
        }
    } else {
        assert(ea < eb);
        let pb = pow2((eb - 1) as nat) as int;
        lemma_pow2_pos((eb - 1) as nat);
        lemma_mul_inequality(0x80_0000, 0x80_0000 + fb, pb);
        assert(0x80_0000 * pb <= b.magnitude());
        if ea == 0 {
            assert(0x80_0000 * 1 <= 0x80_0000 * pb) by (nonlinear_arith)
                requires
                    pb >= 1,
            ;
        } else {
            let pa = pow2((ea - 1) as nat) as int;
            lemma_pow2_pos((ea - 1) as nat);
            lemma_mul_strict_inequality(0x80_0000 + fa, 0x100_0000, pa);
            lemma_pow2_unfold(ea as nat);
            assert(0x100_0000 * pa == 0x80_0000 * (pow2(ea as nat) as int)) by (nonlinear_arith)
                requires
                    pow2(ea as nat) == 2 * pa,
            ;
            if ea < eb - 1 {
                lemma_pow2_strictly_increases(ea as nat, (eb - 1) as nat);
            }
            assert(0x80_0000 * (pow2(ea as nat) as int) <= 0x80_0000 * pb) by (nonlinear_arith)
                requires
                    pow2(ea as nat) <= pb,
            ;
        }
    }
}

/// Patterns that are no NaN order by sign and magnitude bits exactly as the
/// values they stand for.
proof fn lemma_key_orders_as_value(a: Binary32, b: Binary32)
    ensures
        a.key() < b.key() <==> a.scaled() < b.scaled(),
{
    let ma = a.bits as int % 0x8000_0000;
    let mb = b.bits as int % 0x8000_0000;
    let zero = Binary32 { bits: 0 };
    assert(zero.magnitude() == 0);
    if ma < mb {
        lemma_magnitude_increases(a, b);
    } else if mb < ma {
        lemma_magnitude_increases(b, a);
    } else {
        assert(a.exponent() == b.exponent());
        assert(a.fraction() == b.fraction());
    }
    if 0 < ma {
        lemma_magnitude_increases(zero, a);
    } else {
        assert(a.exponent() == 0 && a.fraction() == 0);
    }
    if 0 < mb {
        lemma_magnitude_increases(zero, b);
    } else {
        assert(b.exponent() == 0 && b.fraction() == 0);
    }
}

/// Everything but a NaN and positive infinity itself is below positive
/// infinity: every finite value, and negative infinity.
pub proof fn lemma_below_infinity(x: Binary32)
    ensures
        x.lt_spec(Binary32 { bits: INFINITY_BITS }) <==> !x.is_nan_spec() && x.bits
            != INFINITY_BITS,
        x.is_finite_spec() ==> x.lt_spec(Binary32 { bits: INFINITY_BITS }),
{
    let inf = Binary32 { bits: INFINITY_BITS };
    let zero = Binary32 { bits: 0 };
    assert(inf.exponent() == 255 && inf.fraction() == 0);
    assert(zero.magnitude() == 0);
    lemma_magnitude_increases(zero, inf);
    let m = x.bits as int % 0x8000_0000;
    if m < 0x7F80_0000 {
        lemma_magnitude_increases(x, inf);
    } else if m == 0x7F80_0000 {
        assert(x.exponent() == 255 && x.fraction() == 0);
    } else {
        assert(x.exponent() == 255 && x.fraction() != 0);
    }
    if 0 < m {
        lemma_magnitude_increases(zero, x);
    } else {
        assert(x.exponent() == 0 && x.fraction() == 0);
    }
}

/// No magnitude is below zero, and only the two zeros have magnitude zero.
pub proof fn lemma_zero_magnitude(x: Binary32)
    ensures
        0 <= x.magnitude(),
        x.magnitude() == 0 <==> x.bits as int % 0x8000_0000 == 0,
{
    let zero = Binary32 { bits: 0 };
    assert(zero.magnitude() == 0);
    if 0 < x.bits as int % 0x8000_0000 {
        lemma_magnitude_increases(zero, x);
    } else {
        assert(x.exponent() == 0 && x.fraction() == 0);
    }
}

/// Below exponent 127 a magnitude is less than one.
proof fn lemma_below_one(x: Binary32)
    requires
        x.exponent() < 127,
    ensures
        0 <= x.magnitude() < pow2(149),
{
    let e = x.exponent();
    let sig = x.significand();
    lemma2_to64();
    if e == 0 {
        lemma_pow2_strictly_increases(23, 149);
    } else {
        let a = pow2((e - 1) as nat) as int;
        lemma_pow2_pos((e - 1) as nat);
        lemma_mul_strict_inequality(sig, 0x100_0000, a);
        lemma_pow2_adds(24, (e - 1) as nat);
        if e + 23 < 149 {
            lemma_pow2_strictly_increases((e + 23) as nat, 149);
        }
        lemma_mul_nonnegative(sig, a);
    }
}

/// Whether a magnitude is a whole number, by the range its exponent falls in.
proof fn lemma_fraction_part(x: Binary32)
    ensures
        x.exponent() < 127 ==> (x.magnitude() % (pow2(149) as int) == 0 <==> x.bits as int
            % 0x8000_0000 == 0),
        127 <= x.exponent() < 150 ==> (x.magnitude() % (pow2(149) as int) == 0
            <==> x.significand() % (pow2((150 - x.exponent()) as nat) as int) == 0),
        150 <= x.exponent() ==> x.magnitude() % (pow2(149) as int) == 0,
{
    let e = x.exponent();
    let sig = x.significand();
    let unit = pow2(149) as int;
    lemma_pow2_pos(149);
    if e < 127 {
        lemma_below_one(x);
        lemma_zero_magnitude(x);
        lemma_small_mod(x.magnitude() as nat, unit as nat);
    } else if e < 150 {
        let a = pow2((e - 1) as nat) as int;
        let b = pow2((150 - e) as nat) as int;
        lemma_pow2_pos((e - 1) as nat);
        lemma_pow2_pos((150 - e) as nat);
        lemma_pow2_adds((e - 1) as nat, (150 - e) as nat);
        lemma_truncate_middle(sig, a, b);
        lemma_mod_bound(sig, b);
        assert(sig * a == a * sig) by (nonlinear_arith);
        assert(a * (sig % b) == 0 <==> sig % b == 0) by (nonlinear_arith)
            requires
                0 < a,
                0 <= sig % b,
        ;
    } else {
        let c = pow2((e - 150) as nat) as int;
        lemma_pow2_adds(149, (e - 150) as nat);
        assert(sig * (unit * c) == (sig * c) * unit) by (nonlinear_arith);
        lemma_mod_multiples_basic(sig * c, unit);
    }
}

/// From exponent 158 on, a value lies at or beyond the ends of `i32`.
proof fn lemma_beyond_i32(x: Binary32)
    requires
        158 <= x.exponent(),
    ensures
        0x8000_0000 <= x.magnitude() / (pow2(149) as int),
        x.magnitude() % (pow2(149) as int) == 0,
{
    let e = x.exponent();
    let p = pow2((e - 150) as nat) as int;
    lemma_whole_part(x);
    lemma_fraction_part(x);
    lemma2_to64();
    if e > 158 {
        lemma_pow2_strictly_increases(8, (e - 150) as nat);
    }
    assert(0x80_0000 * 0x100 <= x.significand() * p) by (nonlinear_arith)
        requires
            0x80_0000 <= x.significand(),
            0x100 <= p,
    ;
}

/// Dividing the negative of `n` rounds away from zero where dividing `n`
/// leaves a remainder.
pub proof fn lemma_div_of_negated(n: int, d: int)
    requires
        0 <= n,
        0 < d,
    ensures
        (-n) / d == if n % d == 0 {
            -(n / d)
        } else {
            -(n / d) - 1
        },
{
    lemma_fundamental_div_mod(n, d);
    lemma_mod_bound(n, d);
    let q = n / d;
    let r = n % d;
    if r == 0 {
        assert(-n == (-q) * d + 0) by (nonlinear_arith)
            requires
                n == d * q + r,
                r == 0,
        ;
        lemma_fundamental_div_mod_converse(-n, d, -q, 0);
    } else {
        assert(-n == (-q - 1) * d + (d - r)) by (nonlinear_arith)
            requires
                n == d * q + r,
        ;
        lemma_fundamental_div_mod_converse(-n, d, -q - 1, d - r);
    }
}

/// Dropping the fractional part of `n * 2^(e-1)` units of 2^-149 is dividing
/// `n` by 2^(150-e), as long as the exponent `e` is below 150.
pub proof fn lemma_whole_units(n: int, e: int)
    requires
        0 <= n,
        1 <= e < 150,
    ensures
        (n * pow2((e - 1) as nat)) / (pow2(149) as int) == n / (pow2((150 - e) as nat) as int),
{
    let a = pow2((e - 1) as nat) as int;
    let b = pow2((150 - e) as nat) as int;
    lemma_pow2_pos((e - 1) as nat);
    lemma_pow2_pos((150 - e) as nat);
    lemma_pow2_adds((e - 1) as nat, (150 - e) as nat);
    lemma_mul_nonnegative(n, a);
    lemma_div_by_multiple(n, a);
    lemma_div_denominator(n * a, a, b);
}

/// The whole part of a magnitude, by the range its exponent falls in.
proof fn lemma_whole_part(x: Binary32)
    ensures
        x.exponent() < 127 ==> x.magnitude() / (pow2(149) as int) == 0,
        127 <= x.exponent() < 150 ==> x.magnitude() / (pow2(149) as int) == x.significand() / (
        pow2((150 - x.exponent()) as nat) as int),
        150 <= x.exponent() ==> x.magnitude() / (pow2(149) as int) == x.significand() * pow2(
            (x.exponent() - 150) as nat,
        ),
{
    let e = x.exponent();
    let sig = x.significand();
    let unit = pow2(149) as int;
    lemma2_to64();
    lemma_pow2_pos(149);
    if e < 127 {
        lemma_below_one(x);
        lemma_basic_div(x.magnitude(), unit);
    } else if e < 150 {
        lemma_whole_units(sig, e);
    } else {
        let c = pow2((e - 150) as nat) as int;
        lemma_pow2_pos((e - 150) as nat);
        lemma_pow2_adds(149, (e - 150) as nat);
        lemma_mul_nonnegative(sig, c);
        assert(sig * (unit * c) == (sig * c) * unit) by (nonlinear_arith);
        lemma_div_by_multiple(sig * c, unit);
    }
}

} // verus!
