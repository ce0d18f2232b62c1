//! Rounding to binary64: to the nearest number, ties to the even one.
//!
//! Magnitudes are counted in units of 2^-1074, the distance between the
//! smallest binary64 numbers, so that every finite binary64 magnitude is a
//! natural number of units. A quantity to be rounded is a fraction `n / d`
//! of such units.

use crate::binary64::{Real, HIDDEN_BIT, INFINITY_BITS};
use vstd::arithmetic::div_mod::{
    lemma_basic_div, lemma_div_denominator, lemma_div_pos_is_pos, lemma_fundamental_div_mod,
    lemma_fundamental_div_mod_converse, lemma_mod_bound, lemma_multiply_divide_lt,
    lemma_small_mod,
};
use vstd::arithmetic::power2::{
    lemma2_to64, lemma_pow2_adds, lemma_pow2_pos, lemma_pow2_strictly_increases,
    lemma_pow2_unfold, pow2,
};
use vstd::prelude::*;

verus! {

/// 2^53: every magnitude below it is counted in whole units.
pub const SIGNIFICAND_LIMIT: u64 = 0x0020_0000_0000_0000;

/// The spacing of the binary64 numbers around `n / d`, as an exponent: the
/// numbers there are the multiples of 2^e units. It is the least `e` with
/// `n / d < 2^(53 + e)`.
pub open spec fn quantum(n: nat, d: nat) -> nat
    decreases n,
{
    if d == 0 || n < d * SIGNIFICAND_LIMIT {
        0
    } else {
        1 + quantum(n / 2, d)
    }
}

/// The encoding of the binary64 magnitude nearest to `n / d` units: the
/// quotient by the spacing there, rounded to the nearest whole number and to
/// the even one where two are equally near. The exponent field is the
/// spacing's exponent, which the sum below puts in its place; a carry out of
/// the significand moves on to the next exponent by itself. What lies beyond
/// the largest finite number becomes infinity.
pub open spec fn nearest_magnitude(n: nat, d: nat) -> nat {
    let e = quantum(n, d);
    let unit = d * pow2(e);
    let m = n / unit;
    let r = n % unit;
    let up: nat = if 2 * r > unit || (2 * r == unit && m % 2 == 1) {
        1
    } else {
        0
    };
    let bits = (e * HIDDEN_BIT + m + up) as nat;
    if bits >= INFINITY_BITS {
        INFINITY_BITS as nat
    } else {
        bits
    }
}

/// A rounded magnitude is an encoding up to that of infinity.
pub proof fn lemma_nearest_magnitude_bound(n: nat, d: nat)
    ensures
        nearest_magnitude(n, d) <= INFINITY_BITS,
{
}

/// The spacing's exponent is `e` where `n / d` lies below 2^(53 + e) and,
/// unless `e` is zero, not below 2^(52 + e).
pub proof fn lemma_quantum_is(n: nat, d: nat, e: nat)
    requires
        d > 0,
        n < d * pow2(53 + e),
        e > 0 ==> n >= d * pow2(52 + e),
    ensures
        quantum(n, d) == e,
    decreases e,
{
    lemma2_to64();
    lemma_pow2_52_53();
    if e == 0 {
    } else {
        lemma_pow2_unfold(53 + e);
        lemma_pow2_unfold(52 + e);
        let low = pow2((51 + e) as nat);
        let mid = pow2(52 + e);
        assert(mid == 2 * low);
        assert(pow2(53 + e) == 2 * mid);
        lemma_pow2_pos((51 + e) as nat);
        if e > 1 {
            lemma_pow2_strictly_increases(53, 52 + e);
        }
        assert(mid >= pow2(53));
        assert(d * mid >= d * pow2(53)) by (nonlinear_arith)
            requires
                mid >= pow2(53),
                d > 0,
        ;
        assert(n >= d * SIGNIFICAND_LIMIT);
        assert(d * pow2(53 + e) == 2 * (d * mid)) by (nonlinear_arith)
            requires
                pow2(53 + e) == 2 * mid,
        ;
        assert(d * mid == 2 * (d * low)) by (nonlinear_arith)
            requires
                mid == 2 * low,
        ;
        assert(n / 2 < d * mid);
        assert(n / 2 >= d * low);
        lemma_quantum_is(n / 2, d, (e - 1) as nat);
    }
}

/// 2^52 and 2^53 written out.
pub proof fn lemma_pow2_52_53()
    ensures
        pow2(53) == 0x0020_0000_0000_0000,
        pow2(52) == 0x0010_0000_0000_0000,
{
    vstd::arithmetic::power2::lemma2_to64_rest();
}

/// Dividing `n` by `unit` after both have been scaled by `c`: where
/// `n * c` is `m` times `unit * c` and a rest below `unit * c`, the quotient
/// of `n` by `unit` is `m`, and the rest is the remainder scaled by `c`.
pub proof fn lemma_scaled_division(n: nat, unit: nat, c: nat, m: nat, rest: nat)
    requires
        unit > 0,
        c > 0,
        n * c == m * (unit * c) + rest,
        rest < unit * c,
    ensures
        n / unit == m,
        (n % unit) * c == rest,
{
    let q = n as int / unit as int;
    let r = n as int % unit as int;
    lemma_fundamental_div_mod(n as int, unit as int);
    lemma_mod_bound(n as int, unit as int);
    assert(n == unit * q + r);
    assert(q >= 0) by {
        lemma_div_pos_is_pos(n as int, unit as int);
    }
    assert(n * c == q * (unit * c) + r * c) by (nonlinear_arith)
        requires
            n == unit * q + r,
    ;
    assert(r * c < unit * c) by (nonlinear_arith)
        requires
            0 <= r < unit,
            c > 0,
    ;
    assert(r * c >= 0) by (nonlinear_arith)
        requires
            0 <= r,
            c > 0,
    ;
    assert(unit * c > 0) by (nonlinear_arith)
        requires
            unit > 0,
            c > 0,
    ;
    lemma_fundamental_div_mod_converse((n * c) as int, (unit * c) as int, q, r * c);
    lemma_fundamental_div_mod_converse(
        (n * c) as int,
        (unit * c) as int,
        m as int,
        rest as int,
    );
}

/// The exponent by which the quantities of [`represents`] are scaled so
/// that no power of two in them has a negative exponent.
pub open spec fn scale() -> nat {
    4096
}

/// `n / d` is `mant * 2^k`; or, with `sticky`, it lies strictly between
/// `mant * 2^k` and `(mant + 1) * 2^k`.
pub open spec fn represents(n: nat, d: nat, mant: nat, k: int, sticky: bool) -> bool {
    let w = d * pow2((k + scale()) as nat);
    let x = n * pow2(scale());
    &&& k + scale() >= 0
    &&& if sticky {
        mant * w < x < (mant + 1) * w
    } else {
        x == mant * w
    }
}

/// The spacing's exponent for a quantity of `len` significant bits at
/// exponent `k`.
pub open spec fn spacing(len: nat, k: int) -> int {
    if len + k > 53 {
        len + k - 53
    } else {
        0
    }
}

/// Whether the part that is cut off, `rho` out of `2 * half`, rounds the
/// kept part up: with `sticky` there is something more behind `rho`, so an
/// exact half cannot occur.
pub open spec fn rounds_up(rho: nat, half: nat, odd: bool, sticky: bool) -> bool {
    if sticky {
        rho >= half
    } else {
        rho > half || (rho == half && odd)
    }
}

/// The significand of `mant * 2^k` (with whatever `sticky` stands for) at
/// the spacing `e`, rounded.
pub open spec fn rounded_significand(mant: nat, k: int, sticky: bool, e: int) -> nat {
    let t = e - k;
    if t <= 0 {
        mant * pow2((-t) as nat)
    } else {
        let p = pow2(t as nat);
        let m = mant / p;
        let up: nat = if rounds_up(mant % p, p / 2, m % 2 == 1, sticky) {
            1
        } else {
            0
        };
        m + up
    }
}

/// What rounding `mant * 2^k` gives, from `mant`, `k` and the number `len`
/// of significant bits of `mant`.
pub open spec fn rounded(mant: nat, k: int, sticky: bool, len: nat) -> nat {
    let e = spacing(len, k);
    let bits = e * HIDDEN_BIT + rounded_significand(mant, k, sticky, e);
    if bits >= INFINITY_BITS {
        INFINITY_BITS as nat
    } else {
        bits as nat
    }
}

/// Rounding a quantity that is given as `mant * 2^k`, exactly or with
/// something more behind it: the nearest binary64 magnitude is found from
/// `mant` and `k` alone.
pub proof fn lemma_round_dyadic(n: nat, d: nat, mant: nat, k: int, sticky: bool, len: nat)
    requires
        d > 0,
        len >= 1,
        pow2((len - 1) as nat) <= mant < pow2(len),
        represents(n, d, mant, k, sticky),
        sticky ==> len >= 55,
    ensures
        nearest_magnitude(n, d) == rounded(mant, k, sticky, len),
{
    let b = scale();
    let pb = pow2(b);
    let pk = pow2((k + b) as nat);
    let w = d * pk;
    let x = n * pb;
    let e = spacing(len, k);
    let t = e - k;
    lemma_pow2_pos(b);
    lemma_pow2_pos((k + b) as nat);
    lemma_pow2_pos(e as nat);
    assert(w > 0) by (nonlinear_arith)
        requires
            w == d * pk,
            d > 0,
            pk > 0,
    ;
    assert(mant * w <= x < (mant + 1) * w) by (nonlinear_arith)
        requires
            if sticky {
                mant * w < x < (mant + 1) * w
            } else {
                x == mant * w
            },
            w > 0,
    ;
    // The quantity lies below 2^(len + k) and not below 2^(len - 1 + k).
    lemma_pow2_adds(len, (k + b) as nat);
    lemma_pow2_adds((len - 1) as nat, (k + b) as nat);
    let top = pow2((len + k + b) as nat);
    let bottom = pow2((len - 1 + k + b) as nat);
    assert(x < d * top) by (nonlinear_arith)
        requires
            x < (mant + 1) * w,
            mant + 1 <= pow2(len),
            w == d * pk,
            top == pow2(len) * pk,
            d > 0,
            pk > 0,
    ;
    assert(x >= d * bottom) by (nonlinear_arith)
        requires
            x >= mant * w,
            mant >= pow2((len - 1) as nat),
            w == d * pk,
            bottom == pow2((len - 1) as nat) * pk,
            d > 0,
            pk > 0,
    ;
    // Hence the spacing.
    lemma_pow2_adds((53 + e) as nat, b);
    let above = pow2((53 + e + b) as nat);
    if 53 + e > len + k {
        lemma_pow2_strictly_increases((len + k + b) as nat, (53 + e + b) as nat);
    }
    assert(top <= above);
    assert(n < d * pow2((53 + e) as nat)) by (nonlinear_arith)
        requires
            n * pb < d * top,
            top <= above,
            above == pow2((53 + e) as nat) * pb,
            pb > 0,
            d > 0,
    ;
    if e > 0 {
        lemma_pow2_adds((52 + e) as nat, b);
        assert(n >= d * pow2((52 + e) as nat)) by (nonlinear_arith)
            requires
                n * pb >= d * bottom,
                bottom == pow2((52 + e) as nat) * pb,
                pb > 0,
                d > 0,
        ;
    }
    lemma_quantum_is(n, d, e as nat);
    let unit = d * pow2(e as nat);
    assert(unit > 0) by (nonlinear_arith)
        requires
            unit == d * pow2(e as nat),
            d > 0,
            pow2(e as nat) > 0,
    ;
    lemma_pow2_adds(e as nat, b);
    assert(unit * pb == d * pow2((e + b) as nat)) by (nonlinear_arith)
        requires
            unit == d * pow2(e as nat),
            pow2((e + b) as nat) == pow2(e as nat) * pb,
    ;
    if t <= 0 {
        // The quantity is a whole number of spacings.
        assert(!sticky);
        let g = pow2((-t) as nat);
        lemma_pow2_adds((e + b) as nat, (-t) as nat);
        assert(pk == pow2((e + b) as nat) * g);
        assert(n * pb == (mant * g) * (unit * pb) + 0) by (nonlinear_arith)
            requires
                n * pb == mant * w,
                w == d * pk,
                pk == pow2((e + b) as nat) * g,
                unit * pb == d * pow2((e + b) as nat),
        ;
        assert(unit * pb > 0) by (nonlinear_arith)
            requires
                unit > 0,
                pb > 0,
        ;
        lemma_scaled_division(n, unit, pb, mant * g, 0);
        let r = n % unit;
        assert(r == 0) by (nonlinear_arith)
            requires
                r * pb == 0,
                pb > 0,
        ;
    } else {
        let p = pow2(t as nat);
        let h = pow2((t - 1) as nat);
        lemma_pow2_pos(t as nat);
        lemma_pow2_pos((t - 1) as nat);
        lemma_pow2_unfold(t as nat);
        assert(p == 2 * h);
        assert(p / 2 == h);
        lemma_pow2_adds((k + b) as nat, t as nat);
        assert(pow2((e + b) as nat) == pk * p);
        assert(unit * pb == w * p) by (nonlinear_arith)
            requires
                unit * pb == d * pow2((e + b) as nat),
                pow2((e + b) as nat) == pk * p,
                w == d * pk,
        ;
        let m = mant / p;
        let rho = mant % p;
        lemma_fundamental_div_mod(mant as int, p as int);
        lemma_mod_bound(mant as int, p as int);
        assert(mant == p * m + rho);
        let delta = (x - mant * w) as nat;
        let rest = rho * w + delta;
        assert(delta < w) by (nonlinear_arith)
            requires
                x < (mant + 1) * w,
                delta == x - mant * w,
        ;
        assert(n * pb == m * (unit * pb) + rest) by (nonlinear_arith)
            requires
                n * pb == x,
                x == mant * w + delta,
                mant == p * m + rho,
                unit * pb == w * p,
                rest == rho * w + delta,
        ;
        assert(rest < unit * pb) by (nonlinear_arith)
            requires
                rest == rho * w + delta,
                delta < w,
                0 <= rho < p,
                unit * pb == w * p,
                w > 0,
        ;
        lemma_scaled_division(n, unit, pb, m, rest);
        let r = n % unit;
        assert(r * pb == rest);
        // Whether the rest is above, at or below half a spacing.
        assert(2 * (unit * pb) == 4 * (w * h)) by (nonlinear_arith)
            requires
                unit * pb == w * p,
                p == 2 * h,
        ;
        assert((2 * r > unit) <==> (rest > w * h)) by (nonlinear_arith)
            requires
                r * pb == rest,
                unit * pb == w * p,
                p == 2 * h,
                pb > 0,
        ;
        assert((2 * r == unit) <==> (rest == w * h)) by (nonlinear_arith)
            requires
                r * pb == rest,
                unit * pb == w * p,
                p == 2 * h,
                pb > 0,
        ;
        if sticky {
            assert(delta > 0);
            if rho >= h {
                assert(rest > w * h) by (nonlinear_arith)
                    requires
                        rest == rho * w + delta,
                        delta > 0,
                        rho >= h,
                        w > 0,
                ;
            } else {
                assert(rest < w * h) by (nonlinear_arith)
                    requires
                        rest == rho * w + delta,
                        delta < w,
                        rho + 1 <= h,
                        w > 0,
                ;
            }
        } else {
            assert(delta == 0);
            assert((rest > w * h) <==> (rho > h)) by (nonlinear_arith)
                requires
                    rest == rho * w,
                    w > 0,
            ;
            assert((rest == w * h) <==> (rho == h)) by (nonlinear_arith)
                requires
                    rest == rho * w,
                    w > 0,
            ;
        }
    }
}

/// 2^128, one more than the largest `u128`.
pub proof fn lemma_pow2_128()
    ensures
        pow2(128) == 0x1_0000_0000_0000_0000_0000_0000_0000_0000,
        pow2(64) == 0x1_0000_0000_0000_0000,
{
    lemma2_to64();
    lemma_pow2_adds(64, 64);
}

/// 2^t as a number.
pub fn power_of_two(t: u32) -> (r: u128)
    requires
        t < 128,
    ensures
        r == pow2(t as nat),
{
    let mut r: u128 = 1;
    let mut i: u32 = 0;
    proof {
        lemma2_to64();
    }
    while i < t
        invariant
            i <= t,
            t < 128,
            r == pow2(i as nat),
        decreases t - i,
    {
        proof {
            lemma_pow2_unfold((i + 1) as nat);
            lemma_pow2_128();
            if i + 1 < 127 {
                lemma_pow2_strictly_increases((i + 1) as nat, 127);
            }
            lemma_pow2_unfold(128);
        }
        r = r * 2;
        i += 1;
    }
    r
}

/// The number of significant bits of `m`: the least `len` with
/// `m < 2^len`.
pub fn bit_length(m: u128) -> (len: u32)
    ensures
        len <= 128,
        m < pow2(len as nat),
        len > 0 ==> m >= pow2((len - 1) as nat),
        m == 0 <==> len == 0,
{
    let mut len: u32 = 0;
    let mut rest: u128 = m;
    proof {
        lemma2_to64();
    }
    while rest > 0
        invariant
            len <= 128,
            rest as int == (m as int) / (pow2(len as nat) as int),
            len > 0 ==> m >= pow2((len - 1) as nat),
            len == 128 ==> rest == 0,
            len == 0 ==> rest == m,
        decreases rest,
    {
        proof {
            let p = pow2(len as nat) as int;
            lemma_pow2_pos(len as nat);
            lemma_pow2_128();
            lemma_pow2_unfold((len + 1) as nat);
            lemma_fundamental_div_mod(m as int, p);
            lemma_mod_bound(m as int, p);
            let q = m as int / p;
            let r = m as int % p;
            assert(m >= p) by (nonlinear_arith)
                requires
                    m == p * q + r,
                    q >= 1,
                    r >= 0,
                    p > 0,
            ;
            lemma_div_denominator(m as int, p, 2);
            assert(p * 2 == pow2((len + 1) as nat));
            if len + 1 == 128 {
                lemma_basic_div(m as int, pow2(128) as int);
            }
        }
        rest = rest / 2;
        len += 1;
    }
    proof {
        let p = pow2(len as nat) as int;
        lemma_pow2_pos(len as nat);
        lemma_fundamental_div_mod(m as int, p);
        lemma_mod_bound(m as int, p);
        if len > 0 {
            lemma_pow2_pos((len - 1) as nat);
        }
    }
    len
}

/// The encoding of the binary64 magnitude nearest to the quantity that
/// `mant`, `k` and `sticky` stand for: `mant * 2^k` units, or something
/// strictly between that and `(mant + 1) * 2^k` units.
pub(crate) fn round_magnitude(
    mant: u128,
    k: i32,
    sticky: bool,
    Ghost(n): Ghost<nat>,
    Ghost(d): Ghost<nat>,
) -> (r: u64)
    requires
        d > 0,
        mant < pow2(126),
        -4000 <= k <= 4000,
        represents(n, d, mant as nat, k as int, sticky),
        sticky ==> mant >= pow2(54),
    ensures
        r == nearest_magnitude(n, d),
{
    proof {
        lemma2_to64();
        lemma_pow2_52_53();
        lemma_pow2_128();
    }
    if mant == 0 {
        proof {
            lemma_pow2_pos(scale());
            let pb = pow2(scale());
            let w = d * pow2((k + scale()) as nat);
            lemma_pow2_pos(54);
            assert(!sticky);
            assert(mant as nat * w == 0) by (nonlinear_arith)
                requires
                    mant == 0,
            ;
            assert(n == 0) by (nonlinear_arith)
                requires
                    n * pb == 0,
                    pb > 0,
            ;
            assert(d * SIGNIFICAND_LIMIT > 0) by (nonlinear_arith)
                requires
                    d > 0,
            ;
            assert(quantum(0, d) == 0);
            assert(d * pow2(0) == d);
            lemma_basic_div(0, d as int);
            lemma_small_mod(0, d);
        }
        return 0;
    }
    let len = bit_length(mant);
    proof {
        if len > 126 {
            lemma_pow2_strictly_increases(126, (len - 1) as nat);
        }
        if sticky && len < 54 {
            lemma_pow2_strictly_increases(len as nat, 54);
        }
        lemma_round_dyadic(n, d, mant as nat, k as int, sticky, len as nat);
    }
    let top: i32 = len as i32 + k;
    let e: i32 = if top > 53 {
        top - 53
    } else {
        0
    };
    if e >= 2047 {
        proof {
            let sig = rounded_significand(mant as nat, k as int, sticky, e as int);
            assert(e * HIDDEN_BIT + sig >= INFINITY_BITS) by (nonlinear_arith)
                requires
                    e >= 2047,
                    sig >= 0,
                    HIDDEN_BIT == 0x0010_0000_0000_0000,
                    INFINITY_BITS == 0x7ff0_0000_0000_0000,
            ;
        }
        return INFINITY_BITS;
    }
    let t: i32 = e - k;
    let sig: u64 = if t <= 0 {
        proof {
            // mant * 2^(-t) < 2^len * 2^(53 - len) = 2^53
            let g = pow2((-t) as nat);
            lemma_pow2_pos((-t) as nat);
            lemma_pow2_adds(len as nat, (-t) as nat);
            if len - t < 53 {
                lemma_pow2_strictly_increases((len - t) as nat, 53);
            }
            assert(mant * g < pow2(53)) by (nonlinear_arith)
                requires
                    mant < pow2(len as nat),
                    pow2(len as nat) * g <= pow2(53),
                    g > 0,
            ;
        }
        let g = power_of_two((-t) as u32);
        (mant * g) as u64
    } else if t >= 128 {
        proof {
            let p = pow2(t as nat);
            lemma_pow2_unfold(t as nat);
            if t - 1 > 127 {
                lemma_pow2_strictly_increases(127, (t - 1) as nat);
            }
            lemma_pow2_unfold(127);
            lemma_pow2_unfold(128);
            assert(pow2((t - 1) as nat) >= pow2(127));
            assert(mant < pow2((t - 1) as nat));
            assert(p / 2 == pow2((t - 1) as nat));
            lemma_basic_div(mant as int, p as int);
            lemma_small_mod(mant as nat, p);
        }
        0
    } else {
        let p = power_of_two(t as u32);
        proof {
            lemma_pow2_pos(t as nat);
        }
        let m = mant / p;
        let rho = mant % p;
        let half = p / 2;
        proof {
            // m < 2^53
            lemma_pow2_pos(t as nat);
            if len >= t {
                lemma_pow2_adds(t as nat, (len - t) as nat);
                if len - t < 53 {
                    lemma_pow2_strictly_increases((len - t) as nat, 53);
                }
                lemma_multiply_divide_lt(mant as int, p as int, pow2((len - t) as nat) as int);
            } else {
                lemma_pow2_strictly_increases(len as nat, t as nat);
                lemma_basic_div(mant as int, p as int);
            }
            assert(m < pow2(53));
        }
        let up = if sticky {
            rho >= half
        } else {
            rho > half || (rho == half && m % 2 == 1)
        };
        if up {
            (m + 1) as u64
        } else {
            m as u64
        }
    };
    let bits: u64 = (e as u64) * HIDDEN_BIT + sig;
    if bits >= INFINITY_BITS {
        INFINITY_BITS
    } else {
        bits
    }
}

/// Where the spacing's exponent is `e`, `n / d` lies below 2^(53 + e) and,
/// unless `e` is zero, not below 2^(52 + e).
pub proof fn lemma_quantum_bounds(n: nat, d: nat)
    requires
        d > 0,
    ensures
        n < d * pow2(53 + quantum(n, d)),
        quantum(n, d) > 0 ==> n >= d * pow2(52 + quantum(n, d)),
    decreases n,
{
    lemma_pow2_52_53();
    if n < d * SIGNIFICAND_LIMIT {
    } else {
        assert(n >= 1) by (nonlinear_arith)
            requires
                n >= d * SIGNIFICAND_LIMIT,
                d > 0,
                SIGNIFICAND_LIMIT == 0x0020_0000_0000_0000,
        ;
        lemma_quantum_bounds(n / 2, d);
        let e = quantum(n / 2, d);
        lemma_pow2_unfold(53 + e + 1);
        lemma_pow2_unfold(52 + e + 1);
        let hi = pow2(53 + e);
        let lo = pow2(52 + e);
        assert(d * (2 * hi) == 2 * (d * hi)) by (nonlinear_arith);
        assert(d * (2 * lo) == 2 * (d * lo)) by (nonlinear_arith);
        if e == 0 {
            assert(pow2(53) == 2 * pow2(52)) by {
                lemma_pow2_unfold(53);
            }
        }
    }
}

/// The magnitude, in units, of the number with a given encoding made of a
/// spacing exponent `e` and a significand `sig` of at most 2^53.
pub proof fn lemma_value_of_encoding(e: nat, sig: nat)
    requires
        sig <= 2 * HIDDEN_BIT,
        e > 0 ==> sig >= HIDDEN_BIT,
        e * HIDDEN_BIT + sig <= INFINITY_BITS,
    ensures
        (Real { bits: (e * HIDDEN_BIT + sig) as u64 }).scaled_magnitude() == sig * pow2(e),
{
    lemma2_to64();
    let bits = (e * HIDDEN_BIT + sig) as u64;
    let x = Real { bits };
    assert(e <= 2047) by (nonlinear_arith)
        requires
            e * HIDDEN_BIT + sig <= INFINITY_BITS,
            sig >= 0,
            HIDDEN_BIT == 0x0010_0000_0000_0000,
            INFINITY_BITS == 0x7ff0_0000_0000_0000,
    ;
    assert(x.magnitude() == bits);
    if sig < HIDDEN_BIT {
        assert(e == 0);
        assert(x.exponent_field() == 0 && x.fraction_field() == sig);
        assert(sig * pow2(0) == sig) by (nonlinear_arith)
            requires
                pow2(0) == 1,
        ;
    } else if sig < 2 * HIDDEN_BIT {
        let f = (sig - HIDDEN_BIT) as nat;
        assert(bits == (e + 1) * HIDDEN_BIT + f) by (nonlinear_arith)
            requires
                bits == e * HIDDEN_BIT + sig,
                f == sig - HIDDEN_BIT,
        ;
        lemma_fundamental_div_mod_converse(bits as int, HIDDEN_BIT as int, (e + 1) as int, f as int);
        assert(x.exponent_field() == e + 1 && x.fraction_field() == f);
    } else {
        assert(bits == (e + 2) * HIDDEN_BIT + 0) by (nonlinear_arith)
            requires
                bits == e * HIDDEN_BIT + sig,
                sig == 2 * HIDDEN_BIT,
        ;
        lemma_fundamental_div_mod_converse(bits as int, HIDDEN_BIT as int, (e + 2) as int, 0);
        assert(x.exponent_field() == e + 2 && x.fraction_field() == 0);
        lemma_pow2_unfold(e + 1);
        assert((HIDDEN_BIT + 0) * pow2((e + 1) as nat) == sig * pow2(e)) by (nonlinear_arith)
            requires
                sig == 2 * HIDDEN_BIT,
                pow2((e + 1) as nat) == 2 * pow2(e),
        ;
    }
}

/// A finite number as a significand and a spacing exponent.
pub proof fn lemma_finite_decomposition(z: Real) -> (r: (nat, nat))
    requires
        z.finite(),
    ensures
        z.scaled_magnitude() == r.0 * pow2(r.1),
        r.0 < 2 * HIDDEN_BIT,
        r.1 <= 2045,
        r.1 > 0 ==> r.0 >= HIDDEN_BIT,
{
    lemma2_to64();
    if z.exponent_field() == 0 {
        assert(z.fraction_field() * pow2(0) == z.fraction_field()) by (nonlinear_arith)
            requires
                pow2(0) == 1,
        ;
        (z.fraction_field(), 0)
    } else {
        ((HIDDEN_BIT + z.fraction_field()) as nat, (z.exponent_field() - 1) as nat)
    }
}

/// A finite magnitude of at least `m * 2^e` units, where `m` has its 53rd
/// bit set unless `e` is zero, is a whole multiple of 2^e units.
pub proof fn lemma_multiple_of_spacing(z: Real, m: nat, e: nat) -> (j: nat)
    requires
        z.finite(),
        e > 0 ==> m >= HIDDEN_BIT,
        z.scaled_magnitude() >= m * pow2(e),
    ensures
        z.scaled_magnitude() == j * pow2(e),
{
    lemma2_to64();
    let (mz, ez) = lemma_finite_decomposition(z);
    lemma_pow2_pos(e);
    lemma_pow2_pos(ez);
    if ez >= e {
        lemma_pow2_adds((ez - e) as nat, e);
        let j = mz * pow2((ez - e) as nat);
        assert(mz * pow2(ez) == j * pow2(e)) by (nonlinear_arith)
            requires
                pow2(ez) == pow2((ez - e) as nat) * pow2(e),
                j == mz * pow2((ez - e) as nat),
        ;
        j
    } else {
        // Then the magnitude is below 2^(53 + ez) <= 2^(52 + e) <= m * 2^e.
        lemma_pow2_adds(53, ez);
        lemma_pow2_adds(52, e);
        lemma_pow2_52_53();
        if 53 + ez < 52 + e {
            lemma_pow2_strictly_increases(53 + ez, 52 + e);
        }
        assert(mz * pow2(ez) < pow2(53) * pow2(ez)) by (nonlinear_arith)
            requires
                mz < pow2(53),
                pow2(ez) > 0,
        ;
        assert(m * pow2(e) >= pow2(52) * pow2(e)) by (nonlinear_arith)
            requires
                m >= pow2(52),
                pow2(e) > 0,
        ;
        assert(false);
        0
    }
}

/// The number that a rounded magnitude encodes, in the terms of the
/// rounding: the spacing exponent `e`, the whole quotient `m` by the
/// spacing and the bit `up` that is added to it.
pub open spec fn rounding_parts(n: nat, d: nat) -> (nat, nat, nat) {
    let e = quantum(n, d);
    let unit = d * pow2(e);
    let m = n / unit;
    let r = n % unit;
    let up: nat = if 2 * r > unit || (2 * r == unit && m % 2 == 1) {
        1
    } else {
        0
    };
    (e, m, up)
}

/// What the parts of a rounding are to `n / d`: the quotient, times the
/// spacing, is not above `n / d`, which lies less than one spacing above
/// it; the quotient is below 2^53 and, unless the spacing's exponent is
/// zero, not below 2^52; and nothing is added where `n / d` is the
/// quotient times the spacing exactly.
pub proof fn lemma_rounding_parts(n: nat, d: nat)
    requires
        d > 0,
    ensures
        ({
            let (e, m, up) = rounding_parts(n, d);
            &&& m * pow2(e) * d <= n < (m + 1) * pow2(e) * d
            &&& m < 2 * HIDDEN_BIT
            &&& e > 0 ==> m >= HIDDEN_BIT
            &&& up <= 1
            &&& n == m * pow2(e) * d ==> up == 0
        }),
{
    let (e, m, up) = rounding_parts(n, d);
    let p = pow2(e);
    let unit = d * p;
    lemma_pow2_pos(e);
    lemma_pow2_52_53();
    assert(unit > 0) by (nonlinear_arith)
        requires
            unit == d * p,
            d > 0,
            p > 0,
    ;
    lemma_fundamental_div_mod(n as int, unit as int);
    lemma_mod_bound(n as int, unit as int);
    lemma_div_pos_is_pos(n as int, unit as int);
    let r = n % unit;
    assert(n == unit * m + r);
    assert(m * p * d == unit * m) by (nonlinear_arith)
        requires
            unit == d * p,
    ;
    assert((m + 1) * p * d == unit * m + unit) by (nonlinear_arith)
        requires
            unit == d * p,
    ;
    lemma_quantum_bounds(n, d);
    lemma_pow2_adds(53, e);
    lemma_pow2_adds(52, e);
    // m < 2^53, since n < d * 2^53 * 2^e
    assert(m < pow2(53)) by (nonlinear_arith)
        requires
            unit * m <= n,
            n < d * (pow2(53) * p),
            unit == d * p,
            unit > 0,
    ;
    if e > 0 {
        assert(m >= pow2(52)) by (nonlinear_arith)
            requires
                n < unit * m + unit,
                n >= d * (pow2(52) * p),
                unit == d * p,
                unit > 0,
        ;
    }
}

/// Rounding does not pass a binary64 number from below: where `n / d` is
/// not above the magnitude of the finite number `z`, neither is the rounded
/// magnitude, which is then finite too.
pub proof fn lemma_rounding_stays_below(n: nat, d: nat, z: Real)
    requires
        d > 0,
        z.finite(),
        n <= z.scaled_magnitude() * d,
    ensures
        (Real { bits: nearest_magnitude(n, d) as u64 }).scaled_magnitude() <= z.scaled_magnitude(),
        nearest_magnitude(n, d) < INFINITY_BITS,
{
    let (e, m, up) = rounding_parts(n, d);
    let p = pow2(e);
    let zs = z.scaled_magnitude();
    lemma_rounding_parts(n, d);
    lemma_pow2_pos(e);
    lemma2_to64();
    // The rounded value, before it is cut off at infinity, is not above z.
    assert((m + up) * p <= zs) by {
        assert(m * p <= zs) by (nonlinear_arith)
            requires
                m * p * d <= n,
                n <= zs * d,
                d > 0,
        ;
        if up == 1 && (m + 1) * p > zs {
            let j = lemma_multiple_of_spacing(z, m, e);
            assert(j == m) by (nonlinear_arith)
                requires
                    zs == j * p,
                    m * p <= zs,
                    zs < (m + 1) * p,
                    p > 0,
            ;
            assert(n == m * p * d) by (nonlinear_arith)
                requires
                    m * p * d <= n,
                    n <= zs * d,
                    zs == m * p,
            ;
        }
    }
    // Hence it is finite, and it is what the encoding stands for.
    let sig = m + up;
    let (mz, ez) = lemma_finite_decomposition(z);
    lemma_encoding_order(e, sig, z);
    lemma_value_of_encoding(e, sig);
}

/// An encoding made of the spacing exponent `e` and the significand `sig`
/// that stands for no more than the finite number `z` is a finite encoding.
pub proof fn lemma_encoding_order(e: nat, sig: nat, z: Real)
    requires
        z.finite(),
        sig <= 2 * HIDDEN_BIT,
        e > 0 ==> sig >= HIDDEN_BIT,
        sig * pow2(e) <= z.scaled_magnitude(),
    ensures
        e * HIDDEN_BIT + sig < INFINITY_BITS,
{
    lemma2_to64();
    lemma_pow2_52_53();
    let (mz, ez) = lemma_finite_decomposition(z);
    lemma_pow2_pos(e);
    lemma_pow2_pos(ez);
    if e >= 2046 {
        // sig * 2^e >= 2^52 * 2^2046 > 2^53 * 2^2045 > z
        lemma_pow2_adds(52, e);
        lemma_pow2_adds(53, ez);
        if 53 + ez < 52 + e {
            lemma_pow2_strictly_increases(53 + ez, 52 + e);
        }
        assert(sig * pow2(e) >= pow2(52) * pow2(e)) by (nonlinear_arith)
            requires
                sig >= pow2(52),
                pow2(e) > 0,
        ;
        assert(mz * pow2(ez) < pow2(53) * pow2(ez)) by (nonlinear_arith)
            requires
                mz < pow2(53),
                pow2(ez) > 0,
        ;
        assert(false);
    } else if e == 2045 && sig == 2 * HIDDEN_BIT {
        lemma_pow2_adds(53, e);
        lemma_pow2_adds(53, ez);
        if ez < e {
            lemma_pow2_strictly_increases(53 + ez, 53 + e);
        }
        assert(mz * pow2(ez) < pow2(53) * pow2(ez)) by (nonlinear_arith)
            requires
                mz < pow2(53),
                pow2(ez) > 0,
        ;
        assert(false);
    } else {
        assert(e * HIDDEN_BIT + sig < INFINITY_BITS) by (nonlinear_arith)
            requires
                e <= 2045,
                sig <= 2 * HIDDEN_BIT,
                e == 2045 ==> sig < 2 * HIDDEN_BIT,
                HIDDEN_BIT == 0x0010_0000_0000_0000,
                INFINITY_BITS == 0x7ff0_0000_0000_0000,
        ;
    }
}

/// Rounding does not pass a binary64 number from above: where `n / d` is
/// not below the magnitude of the finite number `z`, neither is the rounded
/// magnitude.
pub proof fn lemma_rounding_stays_above(n: nat, d: nat, z: Real)
    requires
        d > 0,
        z.finite(),
        n >= z.scaled_magnitude() * d,
    ensures
        (Real { bits: nearest_magnitude(n, d) as u64 }).scaled_magnitude() >= z.scaled_magnitude(),
{
    let (e, m, up) = rounding_parts(n, d);
    let p = pow2(e);
    let zs = z.scaled_magnitude();
    lemma_rounding_parts(n, d);
    lemma_pow2_pos(e);
    lemma2_to64();
    let sig = m + up;
    let bits = e * HIDDEN_BIT + sig;
    if bits >= INFINITY_BITS {
        // Infinity stands above every finite number.
        let inf = Real { bits: INFINITY_BITS };
        assert(inf.magnitude() == INFINITY_BITS);
        assert(z.magnitude() < inf.magnitude());
        crate::binary64::lemma_scaled_magnitude_increases(z, inf);
    } else {
        assert(zs <= m * p) by {
            if zs > m * p {
                assert(zs < (m + 1) * p) by (nonlinear_arith)
                    requires
                        n < (m + 1) * p * d,
                        n >= zs * d,
                        d > 0,
                ;
                let j = lemma_multiple_of_spacing(z, m, e);
                assert(false) by (nonlinear_arith)
                    requires
                        zs == j * p,
                        m * p < zs,
                        zs < (m + 1) * p,
                        p > 0,
                ;
            }
        }
        assert(sig * p >= m * p) by (nonlinear_arith)
            requires
                sig >= m,
                p > 0,
        ;
        lemma_value_of_encoding(e, sig);
    }
}

/// How far `n / d` units are from `z` units, times `d`.
pub open spec fn distance(n: nat, d: nat, z: nat) -> nat {
    if n >= z * d {
        (n - z * d) as nat
    } else {
        (z * d - n) as nat
    }
}

/// No binary64 number lies strictly between two neighbours of the spacing:
/// a finite magnitude is not above `m * 2^e` units or not below
/// `(m + 1) * 2^e`, where `m` has its 53rd bit set unless `e` is zero.
pub proof fn lemma_no_number_between(z: Real, m: nat, e: nat)
    requires
        z.finite(),
        e > 0 ==> m >= HIDDEN_BIT,
    ensures
        z.scaled_magnitude() <= m * pow2(e) || z.scaled_magnitude() >= (m + 1) * pow2(e),
{
    let zs = z.scaled_magnitude();
    let p = pow2(e);
    lemma_pow2_pos(e);
    if zs > m * p {
        let j = lemma_multiple_of_spacing(z, m, e);
        assert(zs >= (m + 1) * p) by (nonlinear_arith)
            requires
                zs == j * p,
                zs > m * p,
                p > 0,
        ;
    }
}

/// Rounding gives the nearest binary64 number: where the rounded magnitude
/// is finite, no finite binary64 magnitude is nearer to `n / d`. And where
/// another one is as near, the rounded one is the even one of the two.
pub proof fn lemma_rounding_is_nearest(n: nat, d: nat, z: Real)
    requires
        d > 0,
        z.finite(),
        nearest_magnitude(n, d) < INFINITY_BITS,
    ensures
        ({
            let rounded = (Real { bits: nearest_magnitude(n, d) as u64 }).scaled_magnitude();
            &&& distance(n, d, rounded) <= distance(n, d, z.scaled_magnitude())
            &&& distance(n, d, rounded) == distance(n, d, z.scaled_magnitude()) && rounded
                != z.scaled_magnitude() ==> nearest_magnitude(n, d) % 2 == 0
        }),
{
    let (e, m, up) = rounding_parts(n, d);
    let p = pow2(e);
    let unit = d * p;
    let zs = z.scaled_magnitude();
    lemma_rounding_parts(n, d);
    lemma_pow2_pos(e);
    lemma2_to64();
    let sig = m + up;
    lemma_value_of_encoding(e, sig);
    let rounded = sig * p;
    let r = (n - m * p * d) as nat;
    assert(unit > 0) by (nonlinear_arith)
        requires
            unit == d * p,
            d > 0,
            p > 0,
    ;
    assert(r < unit) by (nonlinear_arith)
        requires
            n < (m + 1) * p * d,
            r == n - m * p * d,
            unit == d * p,
    ;
    // The remainder of the division is r.
    assert(n == m * unit + r) by (nonlinear_arith)
        requires
            r == n - m * p * d,
            unit == d * p,
    ;
    lemma_fundamental_div_mod_converse(n as int, unit as int, m as int, r as int);
    assert(r == n % unit);
    // The rounded number is the nearer of the two neighbours.
    assert(rounded * d == m * p * d + up * unit) by (nonlinear_arith)
        requires
            rounded == (m + up) * p,
            unit == d * p,
    ;
    let near = distance(n, d, rounded);
    assert(up * unit == if up == 1 {
        unit
    } else {
        0
    }) by (nonlinear_arith)
        requires
            up <= 1,
    ;
    assert(near == if up == 1 {
        unit - r
    } else {
        r as int
    });
    assert(2 * near <= unit);
    // Every other number is one of the neighbours or further away.
    lemma_no_number_between(z, m, e);
    if zs <= m * p {
        assert(zs * d <= m * p * d) by (nonlinear_arith)
            requires
                zs <= m * p,
                d > 0,
        ;
        assert(distance(n, d, zs) >= r);
        if distance(n, d, zs) == near && rounded != zs {
            if up == 0 {
                assert(zs * d == m * p * d);
                assert(zs == m * p) by (nonlinear_arith)
                    requires
                        zs * d == (m * p) * d,
                        d > 0,
                ;
                assert(false);
            }
            assert(2 * r == unit);
        }
    } else {
        assert(zs * d >= (m + 1) * p * d) by (nonlinear_arith)
            requires
                zs >= (m + 1) * p,
                d > 0,
        ;
        assert((m + 1) * p * d == m * p * d + unit) by (nonlinear_arith)
            requires
                unit == d * p,
        ;
        assert(distance(n, d, zs) >= unit - r);
        if distance(n, d, zs) == near && rounded != zs {
            if up == 1 {
                assert(zs * d == (m + 1) * p * d);
                assert(zs == (m + 1) * p) by (nonlinear_arith)
                    requires
                        zs * d == ((m + 1) * p) * d,
                        d > 0,
                ;
                assert(false);
            }
            assert(2 * r == unit);
        }
    }
    // In a tie the significand taken is even, and so is the encoding.
    if 2 * r == unit {
        assert(sig % 2 == 0);
        assert((e * HIDDEN_BIT + sig) % 2 == 0) by (nonlinear_arith)
            requires
                sig % 2 == 0,
                HIDDEN_BIT == 0x0010_0000_0000_0000,
                e >= 0,
        ;
    }
}

/// Rounding gives infinity exactly from the middle between the largest
/// finite binary64 number, `(2^53 - 1) * 2^2045` units, and what would be
/// the next one, `2^53 * 2^2045` units.
pub proof fn lemma_rounding_overflows(n: nat, d: nat)
    requires
        d > 0,
    ensures
        nearest_magnitude(n, d) == INFINITY_BITS <==> 2 * n >= (2 * SIGNIFICAND_LIMIT - 1) * pow2(
            2045,
        ) * d,
{
    let (e, m, up) = rounding_parts(n, d);
    let p = pow2(e);
    let unit = d * p;
    let top = pow2(2045);
    let limit = (2 * SIGNIFICAND_LIMIT - 1) * top * d;
    lemma_rounding_parts(n, d);
    lemma_pow2_pos(e);
    lemma_pow2_pos(2045);
    lemma2_to64();
    lemma_pow2_52_53();
    let r = n % unit;
    assert(unit > 0) by (nonlinear_arith)
        requires
            unit == d * p,
            d > 0,
            p > 0,
    ;
    lemma_fundamental_div_mod(n as int, unit as int);
    lemma_mod_bound(n as int, unit as int);
    assert(n == unit * m + r);
    let bits = e * HIDDEN_BIT + m + up;
    if e > 2045 {
        // n >= 2^52 * 2^e * d >= 2^53 * 2^2045 * d
        lemma_pow2_unfold(2046);
        if e > 2046 {
            lemma_pow2_strictly_increases(2046, e);
        }
        assert(bits >= INFINITY_BITS) by (nonlinear_arith)
            requires
                bits == e * HIDDEN_BIT + m + up,
                e >= 2046,
                m >= HIDDEN_BIT,
                up >= 0,
                HIDDEN_BIT == 0x0010_0000_0000_0000,
                INFINITY_BITS == 0x7ff0_0000_0000_0000,
        ;
        assert(2 * n >= limit) by (nonlinear_arith)
            requires
                n >= m * p * d,
                m >= 0x0010_0000_0000_0000,
                p >= 2 * top,
                limit == (2 * 0x0020_0000_0000_0000 - 1) * top * d,
                d > 0,
                top > 0,
        ;
    } else if e == 2045 {
        assert(unit == d * top);
        if m + up >= 2 * HIDDEN_BIT {
            // m is 2^53 - 1 and the remainder is at least half a spacing.
            assert(m == 2 * HIDDEN_BIT - 1 && up == 1);
            assert(2 * r >= unit);
            assert(2 * n >= limit) by (nonlinear_arith)
                requires
                    n == unit * m + r,
                    2 * r >= unit,
                    m == 2 * 0x0010_0000_0000_0000 - 1,
                    unit == d * top,
                    limit == (2 * 0x0020_0000_0000_0000 - 1) * top * d,
            ;
            assert(bits == INFINITY_BITS);
        } else {
            assert(bits < INFINITY_BITS) by (nonlinear_arith)
                requires
                    bits == e * HIDDEN_BIT + m + up,
                    e == 2045,
                    m + up < 2 * HIDDEN_BIT,
                    HIDDEN_BIT == 0x0010_0000_0000_0000,
                    INFINITY_BITS == 0x7ff0_0000_0000_0000,
            ;
            // Either m is below 2^53 - 1, or nothing is added to it.
            if m == 2 * HIDDEN_BIT - 1 {
                assert(up == 0);
                assert(m % 2 == 1);
                assert(2 * r < unit);
            }
            assert(2 * n < limit) by (nonlinear_arith)
                requires
                    n == unit * m + r,
                    r < unit,
                    m <= 2 * 0x0010_0000_0000_0000 - 1,
                    m == 2 * 0x0010_0000_0000_0000 - 1 ==> 2 * r < unit,
                    unit == d * top,
                    unit > 0,
                    limit == (2 * 0x0020_0000_0000_0000 - 1) * top * d,
            ;
        }
    } else {
        assert(bits < INFINITY_BITS) by (nonlinear_arith)
            requires
                bits == e * HIDDEN_BIT + m + up,
                e <= 2044,
                m + up <= 2 * HIDDEN_BIT,
                HIDDEN_BIT == 0x0010_0000_0000_0000,
                INFINITY_BITS == 0x7ff0_0000_0000_0000,
        ;
        // n < 2^53 * 2^e * d <= 2^53 * 2^2044 * d
        lemma_pow2_unfold(2045);
        if e < 2044 {
            lemma_pow2_strictly_increases(e, 2044);
        }
        assert(2 * n < limit) by (nonlinear_arith)
            requires
                n < (m + 1) * p * d,
                m + 1 <= 0x0020_0000_0000_0000,
                2 * p <= top,
                limit == (2 * 0x0020_0000_0000_0000 - 1) * top * d,
                d > 0,
                p > 0,
        ;
    }
}

} // verus!
