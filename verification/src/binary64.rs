//! Real-valued quantities in IEEE-754 binary64, held as their 64-bit encoding.
//!
//! This module reads the encoding with integer arithmetic alone: the
//! classification (finite, infinite, NaN) and the numeric order. Every finite
//! binary64 number is an integer multiple of 2^-1074, so the number times
//! 2^1074 is an integer; [`Real::scaled`] is that integer and is the
//! mathematical model the contracts speak of.
//!
//! The arithmetic on these numbers is in the module `arithmetic`.

use vstd::arithmetic::power2::*;
use vstd::prelude::*;

verus! {

/// Encoding of the sign bit.
pub const SIGN_BIT: u64 = 0x8000_0000_0000_0000;

/// Encoding of positive infinity: all exponent bits set, fraction zero.
pub const INFINITY_BITS: u64 = 0x7ff0_0000_0000_0000;

/// 2^52: the weight of the exponent field inside the encoding, and the
/// implicit leading bit of a normal number's significand.
pub const HIDDEN_BIT: u64 = 0x0010_0000_0000_0000;

/// Encoding of `0.0`.
pub const ZERO_BITS: u64 = 0;

/// Encoding of `1.0`.
pub const ONE_BITS: u64 = 0x3ff0_0000_0000_0000;

/// Encoding of `2.0`.
pub const TWO_BITS: u64 = 0x4000_0000_0000_0000;

/// Encoding of `250.0`.
pub const TWO_HUNDRED_FIFTY_BITS: u64 = 0x406f_4000_0000_0000;

/// Encoding of `500.0`.
pub const FIVE_HUNDRED_BITS: u64 = 0x407f_4000_0000_0000;

/// Encoding of `1000.0`.
pub const THOUSAND_BITS: u64 = 0x408f_4000_0000_0000;

/// A binary64 number.
#[derive(Clone, Copy, Debug)]
pub struct Real {
    pub bits: u64,
}

impl Real {
    /// The encoding with the sign bit cleared.
    pub open spec fn magnitude(self) -> u64 {
        if self.bits >= SIGN_BIT {
            (self.bits - SIGN_BIT) as u64
        } else {
            self.bits
        }
    }

    /// The sign bit is set. This holds of `-0.0` too.
    pub open spec fn sign_negative(self) -> bool {
        self.bits >= SIGN_BIT
    }

    /// Neither an infinity nor a NaN.
    pub open spec fn finite(self) -> bool {
        self.magnitude() < INFINITY_BITS
    }

    /// Positive or negative infinity.
    pub open spec fn infinite(self) -> bool {
        self.magnitude() == INFINITY_BITS
    }

    /// Not a number.
    pub open spec fn nan(self) -> bool {
        self.magnitude() > INFINITY_BITS
    }

    /// The biased exponent, a number below 2048.
    pub open spec fn exponent_field(self) -> nat {
        (self.magnitude() / HIDDEN_BIT) as nat
    }

    /// The 52 stored bits of the significand.
    pub open spec fn fraction_field(self) -> nat {
        (self.magnitude() % HIDDEN_BIT) as nat
    }

    /// The absolute value times 2^1074. For a subnormal number this is the
    /// fraction itself; for a normal number the significand with its leading
    /// bit, shifted by the exponent. The same formula gives 2^2098 for an
    /// infinity, above every finite number.
    pub open spec fn scaled_magnitude(self) -> nat {
        if self.exponent_field() == 0 {
            self.fraction_field()
        } else {
            ((HIDDEN_BIT + self.fraction_field()) * pow2((self.exponent_field() - 1) as nat)) as nat
        }
    }

    /// The number times 2^1074: an integer for every finite number.
    pub open spec fn scaled(self) -> int {
        if self.sign_negative() {
            -(self.scaled_magnitude() as int)
        } else {
            self.scaled_magnitude() as int
        }
    }

    /// The numeric order `self < other`, which is false whenever a NaN is
    /// involved and treats the two zeros as equal.
    pub open spec fn below(self, other: Real) -> bool {
        !self.nan() && !other.nan() && self.scaled() < other.scaled()
    }

    /// The number with the given encoding.
    pub fn from_bits(bits: u64) -> (r: Real)
        ensures
            r.bits == bits,
    {
        Real { bits }
    }

    /// The number's encoding.
    pub fn to_bits(self) -> (r: u64)
        ensures
            r == self.bits,
    {
        self.bits
    }

    /// The encoding with the sign bit cleared.
    pub fn magnitude_bits(self) -> (r: u64)
        ensures
            r == self.magnitude(),
    {
        if self.bits >= SIGN_BIT {
            self.bits - SIGN_BIT
        } else {
            self.bits
        }
    }

    /// Whether the sign bit is set.
    pub fn is_sign_negative(self) -> (r: bool)
        ensures
            r == self.sign_negative(),
    {
        self.bits >= SIGN_BIT
    }

    /// Whether the number is neither an infinity nor a NaN.
    pub fn is_finite(self) -> (r: bool)
        ensures
            r == self.finite(),
    {
        self.magnitude_bits() < INFINITY_BITS
    }

    /// Whether the number is an infinity.
    pub fn is_infinite(self) -> (r: bool)
        ensures
            r == self.infinite(),
    {
        self.magnitude_bits() == INFINITY_BITS
    }

    /// Whether this is a NaN.
    pub fn is_nan(self) -> (r: bool)
        ensures
            r == self.nan(),
    {
        self.magnitude_bits() > INFINITY_BITS
    }

    /// Numeric `self < other`.
    pub fn lt(self, other: Real) -> (r: bool)
        ensures
            r == self.below(other),
    {
        if self.is_nan() || other.is_nan() {
            return false;
        }
        let a: u64 = self.magnitude_bits();
        let b: u64 = other.magnitude_bits();
        proof {
            lemma_scaled_magnitude_order(self, other);
            lemma_scaled_magnitude_zero(self);
            lemma_scaled_magnitude_zero(other);
        }
        if self.is_sign_negative() {
            if other.is_sign_negative() {
                b < a
            } else {
                a != 0 || b != 0
            }
        } else {
            if other.is_sign_negative() {
                false
            } else {
                a < b
            }
        }
    }

    /// Numeric `self > other`.
    pub fn gt(self, other: Real) -> (r: bool)
        ensures
            r == other.below(self),
    {
        other.lt(self)
    }

    /// Whether the number is finite and strictly positive.
    pub fn is_positive_finite(self) -> (r: bool)
        ensures
            r == (self.finite() && self.scaled() > 0),
    {
        proof {
            lemma_scaled_magnitude_zero(self);
        }
        self.is_finite() && !self.is_sign_negative() && self.magnitude_bits() != 0
    }
}

/// Only the two zeros have magnitude zero.
pub proof fn lemma_scaled_magnitude_zero(x: Real)
    ensures
        x.scaled_magnitude() == 0 <==> x.magnitude() == 0,
{
    let e = x.exponent_field();
    let f = x.fraction_field();
    if e == 0 {
        assert(x.magnitude() == f);
    } else {
        lemma_pow2_pos((e - 1) as nat);
        let p = pow2((e - 1) as nat);
        assert((HIDDEN_BIT + f) * p >= HIDDEN_BIT + f) by (nonlinear_arith)
            requires
                p >= 1,
        ;
        assert(x.magnitude() >= HIDDEN_BIT);
    }
}

/// A larger encoding (sign aside) is a larger absolute value.
pub proof fn lemma_scaled_magnitude_increases(x: Real, y: Real)
    requires
        x.magnitude() < y.magnitude(),
    ensures
        x.scaled_magnitude() < y.scaled_magnitude(),
{
    let ex = x.exponent_field();
    let fx = x.fraction_field();
    let ey = y.exponent_field();
    let fy = y.fraction_field();
    let m = HIDDEN_BIT as nat;
    assert(x.magnitude() == ex * m + fx && fx < m);
    assert(y.magnitude() == ey * m + fy && fy < m);
    assert(ex <= ey);
    if ex == ey {
        assert(fx < fy);
        if ex != 0 {
            lemma_pow2_pos((ex - 1) as nat);
            let p = pow2((ex - 1) as nat);
            assert((m + fx) * p < (m + fy) * p) by (nonlinear_arith)
                requires
                    fx < fy,
                    p >= 1,
            ;
        }
    } else {
        lemma_pow2_pos((ey - 1) as nat);
        let py = pow2((ey - 1) as nat);
        if ex == 0 {
            assert((m + fy) * py >= m) by (nonlinear_arith)
                requires
                    py >= 1,
            ;
        } else {
            let px = pow2((ex - 1) as nat);
            lemma_pow2_pos((ex - 1) as nat);
            lemma_pow2_unfold(ex);
            assert(pow2(ex) == 2 * px);
            if ex < ey - 1 {
                lemma_pow2_strictly_increases(ex, (ey - 1) as nat);
            }
            assert(2 * px <= py);
            assert((m + fx) * px < m * (2 * px)) by (nonlinear_arith)
                requires
                    fx < m,
                    px >= 1,
            ;
            assert(m * (2 * px) <= (m + fy) * py) by (nonlinear_arith)
                requires
                    2 * px <= py,
                    fy >= 0,
                    m >= 0,
            ;
        }
    }
}

/// The encodings, sign aside, are ordered as the absolute values are.
pub proof fn lemma_scaled_magnitude_order(x: Real, y: Real)
    ensures
        x.magnitude() < y.magnitude() <==> x.scaled_magnitude() < y.scaled_magnitude(),
        x.magnitude() == y.magnitude() <==> x.scaled_magnitude() == y.scaled_magnitude(),
{
    if x.magnitude() < y.magnitude() {
        lemma_scaled_magnitude_increases(x, y);
    } else if y.magnitude() < x.magnitude() {
        lemma_scaled_magnitude_increases(y, x);
    }
}

/// What the named encodings denote: 0, 1, 2, 250, 500 and 1000, each times
/// 2^1074 in the scaled model, and all of them finite.
pub proof fn lemma_named_values()
    ensures
        (Real { bits: ZERO_BITS }).finite() && (Real { bits: ZERO_BITS }).scaled() == 0,
        (Real { bits: ONE_BITS }).finite() && (Real { bits: ONE_BITS }).scaled() == pow2(1074),
        (Real { bits: TWO_BITS }).finite() && (Real { bits: TWO_BITS }).scaled() == 2 * pow2(1074),
        (Real { bits: TWO_HUNDRED_FIFTY_BITS }).finite() && (Real {
            bits: TWO_HUNDRED_FIFTY_BITS,
        }).scaled() == 250 * pow2(1074),
        (Real { bits: FIVE_HUNDRED_BITS }).finite() && (Real { bits: FIVE_HUNDRED_BITS }).scaled()
            == 500 * pow2(1074),
        (Real { bits: THOUSAND_BITS }).finite() && (Real { bits: THOUSAND_BITS }).scaled() == 1000
            * pow2(1074),
{
    lemma2_to64();
    lemma2_to64_rest();
    let one = Real { bits: ONE_BITS };
    assert(one.exponent_field() == 1023 && one.fraction_field() == 0);
    lemma_pow2_adds(52, 1022);
    let two = Real { bits: TWO_BITS };
    assert(two.exponent_field() == 1024 && two.fraction_field() == 0);
    lemma_pow2_adds(52, 1023);
    lemma_pow2_unfold(1023);
    assert(two.scaled() == 2 * pow2(1074)) by (nonlinear_arith)
        requires
            two.scaled() == 0x0010_0000_0000_0000 * pow2(1023),
            pow2(1023) == 2 * pow2(1022),
            pow2(1074) == 0x0010_0000_0000_0000 * pow2(1022),
    ;
    let a = Real { bits: TWO_HUNDRED_FIFTY_BITS };
    assert(a.exponent_field() == 1030 && a.fraction_field() == 0xf_4000_0000_0000);
    lemma_pow2_adds(45, 1029);
    assert(a.scaled() == 250 * pow2(1074)) by (nonlinear_arith)
        requires
            a.scaled() == 0x1f_4000_0000_0000 * pow2(1029),
            pow2(1074) == 0x2000_0000_0000 * pow2(1029),
    ;
    let b = Real { bits: FIVE_HUNDRED_BITS };
    assert(b.exponent_field() == 1031 && b.fraction_field() == 0xf_4000_0000_0000);
    lemma_pow2_adds(44, 1030);
    assert(b.scaled() == 500 * pow2(1074)) by (nonlinear_arith)
        requires
            b.scaled() == 0x1f_4000_0000_0000 * pow2(1030),
            pow2(1074) == 0x1000_0000_0000 * pow2(1030),
    ;
    let c = Real { bits: THOUSAND_BITS };
    assert(c.exponent_field() == 1032 && c.fraction_field() == 0xf_4000_0000_0000);
    lemma_pow2_adds(43, 1031);
    assert(c.scaled() == 1000 * pow2(1074)) by (nonlinear_arith)
        requires
            c.scaled() == 0x1f_4000_0000_0000 * pow2(1031),
            pow2(1074) == 0x800_0000_0000 * pow2(1031),
    ;
}

} // verus!
