//! Addition, subtraction, multiplication and division of binary64 numbers.
//!
//! Each operation gives the exact result of the operation on the two
//! numbers, rounded to the nearest binary64 number, ties to the even one.
//! An invalid operation, and any operation on a NaN, gives the quiet NaN
//! with no payload.

use crate::binary64::{
    lemma_scaled_magnitude_increases, lemma_scaled_magnitude_zero, Real, HIDDEN_BIT,
    INFINITY_BITS, SIGN_BIT,
};
use crate::rounding::{
    bit_length, lemma_pow2_52_53, lemma_pow2_128, lemma_rounding_stays_above,
    lemma_rounding_stays_below, nearest_magnitude, power_of_two, quantum, represents,
    round_magnitude, scale,
};
use vstd::arithmetic::div_mod::{lemma_fundamental_div_mod, lemma_mod_bound};
use vstd::arithmetic::power2::{
    lemma2_to64, lemma2_to64_rest, lemma_pow2_adds, lemma_pow2_pos,
    lemma_pow2_strictly_increases, lemma_pow2_unfold, pow2,
};
use vstd::prelude::*;

verus! {

/// Encoding of the quiet NaN with no payload.
pub const QUIET_NAN_BITS: u64 = 0x7ff8_0000_0000_0000;

/// The exponent of the unit in which magnitudes are counted: one unit is
/// 2^-1074.
pub const UNIT_EXPONENT: u32 = 1074;

impl Real {
    /// The number with the given sign and the given magnitude encoding.
    pub open spec fn with_sign(negative: bool, magnitude: nat) -> Real {
        Real {
            bits: (magnitude + if negative {
                SIGN_BIT
            } else {
                0
            }) as u64,
        }
    }

    /// The quiet NaN.
    pub open spec fn quiet_nan() -> Real {
        Real { bits: QUIET_NAN_BITS }
    }

    /// The number with the opposite sign.
    pub open spec fn negated(self) -> Real {
        Real {
            bits: if self.bits >= SIGN_BIT {
                (self.bits - SIGN_BIT) as u64
            } else {
                (self.bits + SIGN_BIT) as u64
            },
        }
    }

    /// `self + other`: NaN where one of the two is NaN or the two are
    /// infinities of opposite signs; an infinity where one of them is one;
    /// otherwise the exact sum rounded. An exact sum of zero is `+0`, but
    /// for `-0 + -0`, which is `-0`.
    pub open spec fn sum(self, other: Real) -> Real {
        if self.nan() || other.nan() {
            Real::quiet_nan()
        } else if self.infinite() {
            if other.infinite() && self.sign_negative() != other.sign_negative() {
                Real::quiet_nan()
            } else {
                self
            }
        } else if other.infinite() {
            other
        } else {
            let s = self.scaled() + other.scaled();
            if s == 0 {
                Real::with_sign(self.sign_negative() && other.sign_negative(), 0)
            } else if s < 0 {
                Real::with_sign(true, nearest_magnitude((-s) as nat, 1))
            } else {
                Real::with_sign(false, nearest_magnitude(s as nat, 1))
            }
        }
    }

    /// `self - other`: the sum of `self` and the negated `other`.
    pub open spec fn difference(self, other: Real) -> Real {
        self.sum(other.negated())
    }

    /// `self * other`: NaN where one of the two is NaN or one is zero and
    /// the other infinite; otherwise the sign is negative exactly when the
    /// two signs differ, and the magnitude is infinite where one of them is,
    /// else the exact product rounded.
    pub open spec fn product(self, other: Real) -> Real {
        let negative = self.sign_negative() != other.sign_negative();
        if self.nan() || other.nan() {
            Real::quiet_nan()
        } else if self.infinite() || other.infinite() {
            if self.magnitude() == 0 || other.magnitude() == 0 {
                Real::quiet_nan()
            } else {
                Real::with_sign(negative, INFINITY_BITS as nat)
            }
        } else {
            Real::with_sign(
                negative,
                nearest_magnitude(
                    self.scaled_magnitude() * other.scaled_magnitude(),
                    pow2(UNIT_EXPONENT as nat),
                ),
            )
        }
    }

    /// `self / other`: NaN where one of the two is NaN, both are infinite or
    /// both are zero; otherwise the sign is negative exactly when the two
    /// signs differ, and the magnitude is infinite for an infinite dividend
    /// or a zero divisor, zero for an infinite divisor, else the exact
    /// quotient rounded.
    pub open spec fn quotient(self, other: Real) -> Real {
        let negative = self.sign_negative() != other.sign_negative();
        if self.nan() || other.nan() {
            Real::quiet_nan()
        } else if self.infinite() {
            if other.infinite() {
                Real::quiet_nan()
            } else {
                Real::with_sign(negative, INFINITY_BITS as nat)
            }
        } else if other.infinite() {
            Real::with_sign(negative, 0)
        } else if other.magnitude() == 0 {
            if self.magnitude() == 0 {
                Real::quiet_nan()
            } else {
                Real::with_sign(negative, INFINITY_BITS as nat)
            }
        } else {
            Real::with_sign(
                negative,
                nearest_magnitude(
                    self.scaled_magnitude() * pow2(UNIT_EXPONENT as nat),
                    other.scaled_magnitude(),
                ),
            )
        }
    }

    /// The number with the given sign and magnitude encoding.
    fn assemble(negative: bool, magnitude: u64) -> (r: Real)
        requires
            magnitude <= INFINITY_BITS,
        ensures
            r == Real::with_sign(negative, magnitude as nat),
    {
        if negative {
            Real { bits: magnitude + SIGN_BIT }
        } else {
            Real { bits: magnitude }
        }
    }

    /// A finite number as a significand and the exponent of its spacing:
    /// the magnitude is `significand * 2^exponent` units.
    fn unpack(self) -> (r: (u64, u32))
        requires
            self.finite(),
        ensures
            self.scaled_magnitude() == r.0 * pow2(r.1 as nat),
            r.0 < 2 * HIDDEN_BIT,
            r.1 <= 2045,
            r.1 > 0 ==> r.0 >= HIDDEN_BIT,
            r.0 == 0 <==> self.magnitude() == 0,
    {
        let magnitude = self.magnitude_bits();
        let exponent_field = magnitude / HIDDEN_BIT;
        let fraction = magnitude % HIDDEN_BIT;
        proof {
            lemma2_to64();
            assert(fraction * pow2(0) == fraction) by (nonlinear_arith)
                requires
                    pow2(0) == 1,
            ;
        }
        if exponent_field == 0 {
            (fraction, 0)
        } else {
            (HIDDEN_BIT + fraction, (exponent_field - 1) as u32)
        }
    }

    /// The number with the opposite sign.
    pub fn negate(self) -> (r: Real)
        ensures
            r == self.negated(),
    {
        if self.bits >= SIGN_BIT {
            Real { bits: self.bits - SIGN_BIT }
        } else {
            Real { bits: self.bits + SIGN_BIT }
        }
    }

    /// `self + other`.
    pub fn plus(self, other: Real) -> (r: Real)
        ensures
            r == self.sum(other),
    {
        if self.is_nan() || other.is_nan() {
            return Real { bits: QUIET_NAN_BITS };
        }
        let n1 = self.is_sign_negative();
        let n2 = other.is_sign_negative();
        if self.is_infinite() {
            if other.is_infinite() && n1 != n2 {
                return Real { bits: QUIET_NAN_BITS };
            }
            return self;
        }
        if other.is_infinite() {
            return other;
        }
        let (m1, e1) = self.unpack();
        let (m2, e2) = other.unpack();
        if e1 >= e2 {
            add_finite(n1, m1, e1, n2, m2, e2)
        } else {
            add_finite(n2, m2, e2, n1, m1, e1)
        }
    }

    /// `self - other`.
    pub fn minus(self, other: Real) -> (r: Real)
        ensures
            r == self.difference(other),
    {
        self.plus(other.negate())
    }

    /// `self / other`.
    pub fn divided_by(self, other: Real) -> (r: Real)
        ensures
            r == self.quotient(other),
    {
        let negative = self.is_sign_negative() != other.is_sign_negative();
        if self.is_nan() || other.is_nan() {
            return Real { bits: QUIET_NAN_BITS };
        }
        if self.is_infinite() {
            if other.is_infinite() {
                return Real { bits: QUIET_NAN_BITS };
            }
            return Real::assemble(negative, INFINITY_BITS);
        }
        if other.is_infinite() {
            return Real::assemble(negative, 0);
        }
        if other.magnitude_bits() == 0 {
            if self.magnitude_bits() == 0 {
                return Real { bits: QUIET_NAN_BITS };
            }
            return Real::assemble(negative, INFINITY_BITS);
        }
        let (m1, e1) = self.unpack();
        let (m2, e2) = other.unpack();
        let ghost n = self.scaled_magnitude() * pow2(UNIT_EXPONENT as nat);
        let ghost d = other.scaled_magnitude();
        proof {
            lemma2_to64();
            lemma_pow2_52_53();
            lemma_pow2_128();
            lemma_pow2_pos(e2 as nat);
            assert(d > 0) by (nonlinear_arith)
                requires
                    d == m2 * pow2(e2 as nat),
                    m2 > 0,
                    pow2(e2 as nat) > 0,
            ;
        }
        if m1 == 0 {
            proof {
                lemma_pow2_pos(54);
                lemma_pow2_pos(126);
                assert(n == 0) by (nonlinear_arith)
                    requires
                        n == (m1 * pow2(e1 as nat)) * pow2(1074),
                        m1 == 0,
                ;
                let w = d * pow2(scale());
                assert(0 * pow2(scale()) == 0 * w) by (nonlinear_arith);
            }
            let magnitude = round_magnitude(0, 0, false, Ghost(n), Ghost(d));
            return Real::assemble(negative, magnitude);
        }
        let len1 = bit_length(m1 as u128);
        let len2 = bit_length(m2 as u128);
        proof {
            if len1 > 53 {
                lemma_pow2_strictly_increases(53, (len1 - 1) as nat);
            }
            if len2 > 53 {
                lemma_pow2_strictly_increases(53, (len2 - 1) as nat);
            }
        }
        let s1: u32 = 53 - len1;
        let s2: u32 = 53 - len2;
        proof {
            lemma_pow2_adds(len1 as nat, s1 as nat);
            lemma_pow2_adds((len1 - 1) as nat, s1 as nat);
            lemma_pow2_adds(len2 as nat, s2 as nat);
            lemma_pow2_adds((len2 - 1) as nat, s2 as nat);
            lemma_pow2_pos(s1 as nat);
            lemma_pow2_pos(s2 as nat);
            let g1 = pow2(s1 as nat);
            let g2 = pow2(s2 as nat);
            assert(pow2(52) <= m1 * g1 < pow2(53)) by (nonlinear_arith)
                requires
                    pow2((len1 - 1) as nat) <= m1 < pow2(len1 as nat),
                    pow2(53) == pow2(len1 as nat) * g1,
                    pow2(52) == pow2((len1 - 1) as nat) * g1,
                    g1 > 0,
            ;
            assert(pow2(52) <= m2 * g2 < pow2(53)) by (nonlinear_arith)
                requires
                    pow2((len2 - 1) as nat) <= m2 < pow2(len2 as nat),
                    pow2(53) == pow2(len2 as nat) * g2,
                    pow2(52) == pow2((len2 - 1) as nat) * g2,
                    g2 > 0,
            ;
        }
        let a: u128 = (m1 as u128) * power_of_two(s1);
        let b: u128 = (m2 as u128) * power_of_two(s2);
        let numerator: u128 = a * 0x0100_0000_0000_0000;
        let q: u128 = numerator / b;
        let rest: u128 = numerator % b;
        let k: i32 = (e1 as i32 - s1 as i32) - (e2 as i32 - s2 as i32) + 1074 - 56;
        proof {
            lemma2_to64_rest();
            lemma_fundamental_div_mod(numerator as int, b as int);
            lemma_mod_bound(numerator as int, b as int);
            assert(numerator == q * b + rest) by (nonlinear_arith)
                requires
                    numerator == b * q + rest,
            ;
            // 2^55 <= q < 2^57
            assert(q >= 0x0080_0000_0000_0000) by (nonlinear_arith)
                requires
                    numerator == q * b + rest,
                    rest < b,
                    numerator == a * 0x0100_0000_0000_0000,
                    a >= 0x0010_0000_0000_0000,
                    b < 0x0020_0000_0000_0000,
                    q >= 0,
            ;
            assert(q < 0x0200_0000_0000_0000) by (nonlinear_arith)
                requires
                    numerator == q * b + rest,
                    rest >= 0,
                    numerator == a * 0x0100_0000_0000_0000,
                    a < 0x0020_0000_0000_0000,
                    b >= 0x0010_0000_0000_0000,
            ;
            lemma_pow2_strictly_increases(54, 55);
            lemma_pow2_strictly_increases(57, 126);
            lemma_pow2_adds(1, 56);
            lemma_quotient_represented(
                m1 as nat,
                e1 as nat,
                s1 as nat,
                m2 as nat,
                e2 as nat,
                s2 as nat,
                q as nat,
                rest as nat,
            );
        }
        let magnitude = round_magnitude(q, k, rest != 0, Ghost(n), Ghost(d));
        Real::assemble(negative, magnitude)
    }

    /// `self * other`.
    pub fn times(self, other: Real) -> (r: Real)
        ensures
            r == self.product(other),
    {
        let negative = self.is_sign_negative() != other.is_sign_negative();
        if self.is_nan() || other.is_nan() {
            return Real { bits: QUIET_NAN_BITS };
        }
        if self.is_infinite() || other.is_infinite() {
            if self.magnitude_bits() == 0 || other.magnitude_bits() == 0 {
                return Real { bits: QUIET_NAN_BITS };
            }
            return Real::assemble(negative, INFINITY_BITS);
        }
        let (m1, e1) = self.unpack();
        let (m2, e2) = other.unpack();
        proof {
            lemma_pow2_52_53();
            lemma_pow2_128();
            assert(m1 * m2 < 0x0020_0000_0000_0000 * 0x0020_0000_0000_0000) by (nonlinear_arith)
                requires
                    m1 < 0x0020_0000_0000_0000,
                    m2 < 0x0020_0000_0000_0000,
            ;
            lemma_pow2_adds(53, 53);
            lemma_pow2_strictly_increases(106, 126);
        }
        let mant: u128 = (m1 as u128) * (m2 as u128);
        let k: i32 = (e1 as i32) + (e2 as i32) - (UNIT_EXPONENT as i32);
        let ghost n = self.scaled_magnitude() * other.scaled_magnitude();
        let ghost d = pow2(UNIT_EXPONENT as nat);
        proof {
            lemma_pow2_pos(1074);
            lemma_product_represented(m1 as nat, e1 as nat, m2 as nat, e2 as nat);
        }
        let magnitude = round_magnitude(mant, k, false, Ghost(n), Ghost(d));
        proof {
            crate::rounding::lemma_nearest_magnitude_bound(n, d);
        }
        Real::assemble(negative, magnitude)
    }
}

/// The exact product of `m1 * 2^e1` and `m2 * 2^e2` units, which is
/// `m1 * m2 * 2^(e1 + e2)` units of 2^-2148 and so that over 2^1074 in units
/// of 2^-1074, is `m1 * m2` at the exponent `e1 + e2 - 1074`.
pub proof fn lemma_product_represented(m1: nat, e1: nat, m2: nat, e2: nat)
    requires
        e1 <= 2045,
        e2 <= 2045,
    ensures
        represents(
            (m1 * pow2(e1)) * (m2 * pow2(e2)),
            pow2(1074),
            m1 * m2,
            e1 + e2 - 1074,
            false,
        ),
{
    let b = scale();
    let pb = pow2(b);
    let k = e1 + e2 - 1074;
    lemma_pow2_adds(1074, (k + b) as nat);
    lemma_pow2_adds(e1, e2);
    lemma_pow2_adds(e1 + e2, b);
    let w = pow2(1074) * pow2((k + b) as nat);
    assert(w == pow2(e1 + e2 + b));
    let pa = pow2(e1);
    let pc = pow2(e2);
    assert(((m1 * pa) * (m2 * pc)) * pb == (m1 * m2) * w) by (nonlinear_arith)
        requires
            w == (pa * pc) * pb,
    ;
}

/// `m * 2^e` units, negated where `negative`.
pub open spec fn signed_units(negative: bool, m: nat, e: nat) -> int {
    if negative {
        -(m * pow2(e))
    } else {
        (m * pow2(e)) as int
    }
}

/// The binary64 number for an exact sum of `s` units: `s` rounded, where
/// an exact zero is negative only if both numbers that were added are.
pub open spec fn rounded_sum(s: int, both_negative: bool) -> Real {
    if s == 0 {
        Real::with_sign(both_negative, 0)
    } else if s < 0 {
        Real::with_sign(true, nearest_magnitude((-s) as nat, 1))
    } else {
        Real::with_sign(false, nearest_magnitude(s as nat, 1))
    }
}

/// The sum of two finite numbers, the first of which has the larger
/// exponent. Where the exponents are at most 64 apart the sum is formed
/// exactly and then rounded. Where they are further apart, the second
/// number is less than an eighth of the first one's spacing and only moves
/// the first off its place, up or down.
fn add_finite(nb: bool, mb: u64, eb: u32, ns: bool, ms: u64, es: u32) -> (r: Real)
    requires
        mb < 2 * HIDDEN_BIT,
        ms < 2 * HIDDEN_BIT,
        es <= eb <= 2045,
        eb > 0 ==> mb >= HIDDEN_BIT,
    ensures
        r == rounded_sum(
            signed_units(nb, mb as nat, eb as nat) + signed_units(ns, ms as nat, es as nat),
            nb && ns,
        ),
{
    let delta: u32 = eb - es;
    let ghost big = mb as nat * pow2(eb as nat);
    let ghost small = ms as nat * pow2(es as nat);
    let ghost s = signed_units(nb, mb as nat, eb as nat) + signed_units(
        ns,
        ms as nat,
        es as nat,
    );
    proof {
        lemma2_to64();
        lemma_pow2_52_53();
        lemma_pow2_128();
        lemma_pow2_pos(eb as nat);
        lemma_pow2_pos(es as nat);
        lemma_pow2_pos(delta as nat);
        lemma_pow2_adds(delta as nat, es as nat);
    }
    if delta <= 64 {
        proof {
            if delta < 64 {
                lemma_pow2_strictly_increases(delta as nat, 64);
            }
            assert(mb * pow2(delta as nat) < 0x0020_0000_0000_0000 * 0x1_0000_0000_0000_0000)
                by (nonlinear_arith)
                requires
                    mb < 0x0020_0000_0000_0000,
                    pow2(delta as nat) <= 0x1_0000_0000_0000_0000,
            ;
        }
        let a: u128 = (mb as u128) * power_of_two(delta);
        let b: u128 = ms as u128;
        let (mant, negative) = if nb == ns {
            (a + b, nb)
        } else if a >= b {
            (a - b, nb)
        } else {
            (b - a, ns)
        };
        proof {
            let pe = pow2(es as nat);
            assert(big == a * pe) by (nonlinear_arith)
                requires
                    big == mb * pow2(eb as nat),
                    pow2(eb as nat) == pow2(delta as nat) * pe,
                    a == mb * pow2(delta as nat),
            ;
            assert(small == b * pe);
            assert((a + b) * pe == a * pe + b * pe) by (nonlinear_arith);
            assert((a - b) * pe == a * pe - b * pe) by (nonlinear_arith);
            assert((b - a) * pe == b * pe - a * pe) by (nonlinear_arith);
            assert(a >= b <==> a * pe >= b * pe) by (nonlinear_arith)
                requires
                    pe > 0,
            ;
            assert(mant == 0 <==> mant * pe == 0) by (nonlinear_arith)
                requires
                    pe > 0,
                    mant >= 0,
            ;
            assert(if negative {
                s == -(mant * pe)
            } else {
                s == mant * pe
            });
        }
        if mant == 0 {
            return Real::assemble(nb && ns, 0);
        }
        let ghost n = (mant * pow2(es as nat)) as nat;
        proof {
            lemma_pow2_adds(es as nat, scale());
            let w = 1 * pow2((es + scale()) as nat);
            assert(n * pow2(scale()) == mant as nat * w) by (nonlinear_arith)
                requires
                    n == mant * pow2(es as nat),
                    w == pow2(es as nat) * pow2(scale()),
            ;
            lemma_pow2_strictly_increases(118, 126);
            lemma_pow2_adds(54, 64);
            lemma_pow2_unfold(118);
            lemma_pow2_unfold(117);
            lemma_pow2_adds(53, 64);
            lemma_pow2_pos(54);
        }
        let magnitude = round_magnitude(mant, es as i32, false, Ghost(n), Ghost(1));
        Real::assemble(negative, magnitude)
    } else if ms == 0 {
        let ghost n = big;
        proof {
            assert(small == 0) by (nonlinear_arith)
                requires
                    small == ms * pow2(es as nat),
                    ms == 0,
            ;
            assert(big > 0) by (nonlinear_arith)
                requires
                    big == mb * pow2(eb as nat),
                    mb > 0,
                    pow2(eb as nat) > 0,
            ;
            lemma_pow2_adds(eb as nat, scale());
            let w = 1 * pow2((eb + scale()) as nat);
            assert(n * pow2(scale()) == mb as nat * w) by (nonlinear_arith)
                requires
                    n == mb * pow2(eb as nat),
                    w == pow2(eb as nat) * pow2(scale()),
            ;
            lemma_pow2_strictly_increases(53, 126);
        }
        let magnitude = round_magnitude(mb as u128, eb as i32, false, Ghost(n), Ghost(1));
        Real::assemble(nb, magnitude)
    } else {
        let base: u128 = (mb as u128) * 8;
        let mant: u128 = if nb == ns {
            base
        } else {
            (base - 1) as u128
        };
        let ghost n = if nb == ns {
            big + small
        } else {
            (big - small) as nat
        };
        proof {
            let b = scale();
            let pb = pow2(b);
            let w = 1 * pow2((eb - 3 + b) as nat);
            lemma_pow2_pos(b);
            lemma_pow2_pos((eb - 3 + b) as nat);
            lemma_pow2_adds(3, (eb - 3 + b) as nat);
            lemma_pow2_adds(eb as nat, b);
            assert(big * pb == base * w) by (nonlinear_arith)
                requires
                    big == mb * pow2(eb as nat),
                    pow2(eb as nat) * pb == 8 * w,
                    base == mb * 8,
            ;
            // The second number is positive and below an eighth of the
            // first one's spacing.
            lemma_pow2_adds(53, es as nat);
            lemma_pow2_strictly_increases((53 + es) as nat, (eb - 3) as nat);
            assert(0 < small < pow2((eb - 3) as nat)) by (nonlinear_arith)
                requires
                    small == ms * pow2(es as nat),
                    0 < ms < pow2(53),
                    pow2(es as nat) > 0,
                    pow2(53) * pow2(es as nat) < pow2((eb - 3) as nat),
            ;
            lemma_pow2_adds((eb - 3) as nat, b);
            assert(0 < small * pb < w) by (nonlinear_arith)
                requires
                    0 < small < pow2((eb - 3) as nat),
                    w == pow2((eb - 3) as nat) * pb,
                    pb > 0,
            ;
            assert(w <= base * w) by (nonlinear_arith)
                requires
                    base >= 1,
                    w > 0,
            ;
            assert(small < big) by (nonlinear_arith)
                requires
                    small * pb < w,
                    w <= base * w,
                    big * pb == base * w,
                    pb > 0,
            ;
            assert((big + small) * pb == base * w + small * pb) by (nonlinear_arith)
                requires
                    big * pb == base * w,
            ;
            assert((big - small) * pb == base * w - small * pb) by (nonlinear_arith)
                requires
                    big * pb == base * w,
            ;
            assert((base + 1) * w == base * w + w) by (nonlinear_arith);
            assert((base - 1) * w == base * w - w) by (nonlinear_arith);
            assert(represents(n, 1, mant as nat, eb - 3, true));
            lemma_pow2_strictly_increases(54, 55);
            lemma_pow2_strictly_increases(56, 126);
            lemma_pow2_adds(3, 52);
            lemma_pow2_adds(3, 53);
        }
        let magnitude = round_magnitude(mant, eb as i32 - 3, true, Ghost(n), Ghost(1));
        Real::assemble(nb, magnitude)
    }
}

/// The exact quotient of `m1 * 2^e1` by `m2 * 2^e2`, in units of 2^-1074,
/// from the whole quotient `q` of the significands, which have been brought
/// to 53 bits by the shifts `s1` and `s2`, the first moved up by 56 bits
/// more: it is `q` at the exponent `e1 - s1 - e2 + s2 + 1018`, exactly where
/// the division left no rest, and with something more behind it otherwise.
pub proof fn lemma_quotient_represented(
    m1: nat,
    e1: nat,
    s1: nat,
    m2: nat,
    e2: nat,
    s2: nat,
    q: nat,
    rest: nat,
)
    requires
        e1 <= 2045,
        e2 <= 2045,
        s1 <= 52,
        s2 <= 52,
        m2 > 0,
        (m1 * pow2(s1)) * pow2(56) == q * (m2 * pow2(s2)) + rest,
        rest < m2 * pow2(s2),
    ensures
        represents(
            (m1 * pow2(e1)) * pow2(1074),
            m2 * pow2(e2),
            q,
            (e1 - s1) - (e2 - s2) + 1074 - 56,
            rest != 0,
        ),
{
    let b = scale();
    let pb = pow2(b);
    let k = (e1 - s1) - (e2 - s2) + 1074 - 56;
    let j = (e1 - s1 + 1018 + b) as nat;
    let p = pow2(j);
    let a = m1 * pow2(s1);
    let bb = m2 * pow2(s2);
    let n = (m1 * pow2(e1)) * pow2(1074);
    let d = m2 * pow2(e2);
    let w = d * pow2((k + b) as nat);
    lemma_pow2_pos(j);
    // w == bb * p
    lemma_pow2_adds(e2, (k + b) as nat);
    lemma_pow2_adds(j, s2);
    assert(e2 + (k + b) == j + s2);
    assert(w == bb * p) by (nonlinear_arith)
        requires
            w == (m2 * pow2(e2)) * pow2((k + b) as nat),
            pow2(e2) * pow2((k + b) as nat) == p * pow2(s2),
            bb == m2 * pow2(s2),
    ;
    // n * pb == (a * 2^56) * p
    lemma_pow2_adds(e1, 1074);
    lemma_pow2_adds(e1 + 1074, b);
    lemma_pow2_adds(s1, 56);
    lemma_pow2_adds(s1 + 56, j);
    assert(s1 + 56 + j == e1 + 1074 + b);
    assert(n * pb == (a * pow2(56)) * p) by (nonlinear_arith)
        requires
            n == (m1 * pow2(e1)) * pow2(1074),
            a == m1 * pow2(s1),
            (pow2(e1) * pow2(1074)) * pb == (pow2(s1) * pow2(56)) * p,
    ;
    let x = n * pb;
    assert(x == q * w + rest * p) by (nonlinear_arith)
        requires
            x == (a * pow2(56)) * p,
            a * pow2(56) == q * bb + rest,
            w == bb * p,
    ;
    assert(rest * p < w) by (nonlinear_arith)
        requires
            rest < bb,
            w == bb * p,
            p > 0,
    ;
    assert((rest != 0) <==> (rest * p > 0)) by (nonlinear_arith)
        requires
            p > 0,
            rest >= 0,
    ;
    assert((q + 1) * w == q * w + w) by (nonlinear_arith);
}

/// What `with_sign` makes of a sign and a magnitude encoding.
pub proof fn lemma_with_sign(negative: bool, magnitude: nat)
    requires
        magnitude <= INFINITY_BITS,
    ensures
        Real::with_sign(negative, magnitude).magnitude() == magnitude,
        Real::with_sign(negative, magnitude).sign_negative() == negative,
        Real::with_sign(negative, magnitude).scaled_magnitude() == (Real {
            bits: magnitude as u64,
        }).scaled_magnitude(),
        !Real::with_sign(negative, magnitude).nan(),
{
}

/// Negation flips the sign and leaves the magnitude.
pub proof fn lemma_negated(a: Real)
    ensures
        a.negated().magnitude() == a.magnitude(),
        a.negated().sign_negative() == !a.sign_negative(),
        a.negated().scaled() == -a.scaled(),
        a.negated().nan() == a.nan(),
        a.negated().finite() == a.finite(),
{
}

/// Zero rounds to zero.
pub proof fn lemma_nearest_of_zero(d: nat)
    requires
        d > 0,
    ensures
        nearest_magnitude(0, d) == 0,
{
    lemma2_to64();
    assert(d * crate::rounding::SIGNIFICAND_LIMIT > 0) by (nonlinear_arith)
        requires
            d > 0,
            crate::rounding::SIGNIFICAND_LIMIT == 0x0020_0000_0000_0000,
    ;
    assert(quantum(0, d) == 0);
    assert(d * pow2(0) == d);
    vstd::arithmetic::div_mod::lemma_basic_div(0, d as int);
    vstd::arithmetic::div_mod::lemma_small_mod(0, d);
}

/// Every finite magnitude is below that which the encoding of infinity
/// stands for, 2^2098 units.
pub proof fn lemma_finite_below_infinity(a: Real)
    requires
        a.finite(),
    ensures
        a.scaled_magnitude() < (Real { bits: INFINITY_BITS }).scaled_magnitude(),
{
    let inf = Real { bits: INFINITY_BITS };
    assert(inf.magnitude() == INFINITY_BITS);
    lemma_scaled_magnitude_increases(a, inf);
}

/// The sign of a sum of a finite number and another: the sum is no NaN,
/// and it is not below zero where the exact sum is not, and not above zero
/// where the exact sum is not.
pub proof fn lemma_sum_sign(a: Real, b: Real)
    requires
        a.finite(),
        !b.nan(),
    ensures
        !a.sum(b).nan(),
        a.scaled() + b.scaled() >= 0 ==> a.sum(b).scaled() >= 0,
        a.scaled() + b.scaled() <= 0 ==> a.sum(b).scaled() <= 0,
{
    if b.infinite() {
        lemma_finite_below_infinity(a);
        assert(b.magnitude() == INFINITY_BITS);
        assert(b.scaled_magnitude() == (Real { bits: INFINITY_BITS }).scaled_magnitude());
    } else {
        let s = a.scaled() + b.scaled();
        if s == 0 {
            lemma_with_sign(a.sign_negative() && b.sign_negative(), 0);
            lemma_scaled_magnitude_zero(a.sum(b));
        } else if s < 0 {
            crate::rounding::lemma_nearest_magnitude_bound((-s) as nat, 1);
            lemma_with_sign(true, nearest_magnitude((-s) as nat, 1));
        } else {
            crate::rounding::lemma_nearest_magnitude_bound(s as nat, 1);
            lemma_with_sign(false, nearest_magnitude(s as nat, 1));
        }
    }
}

/// Adding a number that is not below zero does not lower a finite number,
/// and adding one that is not above zero does not raise it: rounding the
/// sum does not pass the number that was added to.
pub proof fn lemma_sum_keeps_order(a: Real, b: Real)
    requires
        a.finite(),
        !b.nan(),
    ensures
        !a.sum(b).nan(),
        b.scaled() >= 0 ==> a.sum(b).scaled() >= a.scaled(),
        b.scaled() <= 0 ==> a.sum(b).scaled() <= a.scaled(),
{
    lemma_sum_sign(a, b);
    let r = a.sum(b);
    if b.infinite() {
        lemma_finite_below_infinity(a);
        assert(b.magnitude() == INFINITY_BITS);
        assert(b.scaled_magnitude() == (Real { bits: INFINITY_BITS }).scaled_magnitude());
        assert(r == b);
    } else {
        let s = a.scaled() + b.scaled();
        if s == 0 {
            assert(r.scaled() == 0);
        } else if s < 0 {
            let n = (-s) as nat;
            crate::rounding::lemma_nearest_magnitude_bound(n, 1);
            lemma_with_sign(true, nearest_magnitude(n, 1));
            assert(r == Real::with_sign(true, nearest_magnitude(n, 1)));
            let v = (Real { bits: nearest_magnitude(n, 1) as u64 }).scaled_magnitude();
            assert(r.scaled() == -(v as int));
            if b.scaled() >= 0 {
                // a is negative, and -s is not above its magnitude.
                assert(a.scaled() == -(a.scaled_magnitude() as int));
                assert(n <= a.scaled_magnitude() * 1);
                lemma_rounding_stays_below(n, 1, a);
                assert(v <= a.scaled_magnitude());
            }
            if b.scaled() <= 0 {
                if a.scaled() < 0 {
                    assert(a.scaled() == -(a.scaled_magnitude() as int));
                    assert(n >= a.scaled_magnitude() * 1);
                    lemma_rounding_stays_above(n, 1, a);
                    assert(v >= a.scaled_magnitude());
                }
            }
        } else {
            let n = s as nat;
            crate::rounding::lemma_nearest_magnitude_bound(n, 1);
            lemma_with_sign(false, nearest_magnitude(n, 1));
            assert(r == Real::with_sign(false, nearest_magnitude(n, 1)));
            let v = (Real { bits: nearest_magnitude(n, 1) as u64 }).scaled_magnitude();
            assert(r.scaled() == v as int);
            if b.scaled() <= 0 {
                assert(a.scaled() == a.scaled_magnitude() as int);
                assert(n <= a.scaled_magnitude() * 1);
                lemma_rounding_stays_below(n, 1, a);
            }
            if b.scaled() >= 0 {
                if a.scaled() > 0 {
                    assert(a.scaled() == a.scaled_magnitude() as int);
                    assert(n >= a.scaled_magnitude() * 1);
                    lemma_rounding_stays_above(n, 1, a);
                }
            }
        }
    }
}

/// A sum of two finite numbers whose exact value is, in magnitude, not above
/// a finite number `z` is finite and, in magnitude, not above `z`.
pub proof fn lemma_sum_bounded(a: Real, b: Real, z: Real)
    requires
        a.finite(),
        b.finite(),
        z.finite(),
        -(z.scaled_magnitude() as int) <= a.scaled() + b.scaled() <= z.scaled_magnitude(),
    ensures
        a.sum(b).finite(),
        a.sum(b).scaled_magnitude() <= z.scaled_magnitude(),
{
    let s = a.scaled() + b.scaled();
    if s == 0 {
        lemma_with_sign(a.sign_negative() && b.sign_negative(), 0);
        lemma_scaled_magnitude_zero(a.sum(b));
    } else if s < 0 {
        let n = (-s) as nat;
        assert(n <= z.scaled_magnitude() * 1);
        lemma_rounding_stays_below(n, 1, z);
        lemma_with_sign(true, nearest_magnitude(n, 1));
    } else {
        let n = s as nat;
        assert(n <= z.scaled_magnitude() * 1);
        lemma_rounding_stays_below(n, 1, z);
        lemma_with_sign(false, nearest_magnitude(n, 1));
    }
}

/// The order of the factors does not matter to a product.
pub proof fn lemma_product_commutes(a: Real, b: Real)
    ensures
        a.product(b) == b.product(a),
{
    assert(a.scaled_magnitude() * b.scaled_magnitude() == b.scaled_magnitude()
        * a.scaled_magnitude()) by (nonlinear_arith);
}

/// The sign of a product with a finite number above zero: the product is
/// no NaN, and it is not below zero where the other factor is not, and not
/// above zero where the other factor is not.
pub proof fn lemma_product_sign(a: Real, b: Real)
    requires
        !a.nan(),
        b.finite(),
        b.scaled() > 0,
    ensures
        !a.product(b).nan(),
        a.scaled() >= 0 ==> a.product(b).scaled() >= 0,
        a.scaled() <= 0 ==> a.product(b).scaled() <= 0,
{
    lemma_scaled_magnitude_zero(a);
    lemma_scaled_magnitude_zero(b);
    let negative = a.sign_negative() != b.sign_negative();
    if a.infinite() {
        lemma_with_sign(negative, INFINITY_BITS as nat);
    } else {
        let n = a.scaled_magnitude() * b.scaled_magnitude();
        let d = pow2(UNIT_EXPONENT as nat);
        lemma_pow2_pos(UNIT_EXPONENT as nat);
        crate::rounding::lemma_nearest_magnitude_bound(n, d);
        lemma_with_sign(negative, nearest_magnitude(n, d));
        if a.magnitude() == 0 {
            assert(n == 0) by (nonlinear_arith)
                requires
                    n == a.scaled_magnitude() * b.scaled_magnitude(),
                    a.scaled_magnitude() == 0,
            ;
            lemma_nearest_of_zero(d);
            lemma_scaled_magnitude_zero(a.product(b));
        }
    }
}

/// A product of two finite numbers whose exact value is, in magnitude, not
/// above a finite number `z` is finite and, in magnitude, not above `z`.
pub proof fn lemma_product_bounded(a: Real, b: Real, z: Real)
    requires
        a.finite(),
        b.finite(),
        z.finite(),
        a.scaled_magnitude() * b.scaled_magnitude() <= z.scaled_magnitude() * pow2(
            UNIT_EXPONENT as nat,
        ),
    ensures
        a.product(b).finite(),
        a.product(b).scaled_magnitude() <= z.scaled_magnitude(),
{
    let negative = a.sign_negative() != b.sign_negative();
    let n = a.scaled_magnitude() * b.scaled_magnitude();
    let d = pow2(UNIT_EXPONENT as nat);
    lemma_pow2_pos(UNIT_EXPONENT as nat);
    lemma_rounding_stays_below(n, d, z);
    lemma_with_sign(negative, nearest_magnitude(n, d));
}

/// The sign of a quotient by a finite number above zero: the quotient is
/// no NaN, and it is not below zero where the dividend is not, and not
/// above zero where the dividend is not.
pub proof fn lemma_quotient_sign(a: Real, b: Real)
    requires
        !a.nan(),
        b.finite(),
        b.scaled() > 0,
    ensures
        !a.quotient(b).nan(),
        a.scaled() >= 0 ==> a.quotient(b).scaled() >= 0,
        a.scaled() <= 0 ==> a.quotient(b).scaled() <= 0,
{
    lemma_scaled_magnitude_zero(a);
    lemma_scaled_magnitude_zero(b);
    let negative = a.sign_negative() != b.sign_negative();
    if a.infinite() {
        lemma_with_sign(negative, INFINITY_BITS as nat);
    } else {
        let n = a.scaled_magnitude() * pow2(UNIT_EXPONENT as nat);
        let d = b.scaled_magnitude();
        crate::rounding::lemma_nearest_magnitude_bound(n, d);
        lemma_with_sign(negative, nearest_magnitude(n, d));
        if a.magnitude() == 0 {
            assert(n == 0) by (nonlinear_arith)
                requires
                    n == a.scaled_magnitude() * pow2(UNIT_EXPONENT as nat),
                    a.scaled_magnitude() == 0,
            ;
            lemma_nearest_of_zero(d);
            lemma_scaled_magnitude_zero(a.quotient(b));
        }
    }
}

} // verus!
