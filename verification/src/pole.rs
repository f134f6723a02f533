//! The pole tests of `tan`, `sec`, `csc` and `cot` at an integer or a double,
//! decided exactly.
//!
//! The tests take the argument as a double `x`, reduce it with
//! `x.rem_euclid(π)` and compare the remainder `w` with `π/2` (`tan`, `sec`:
//! `|w − π/2| < 1e-10`) or with zero (`csc`, `cot`: `|w| < 1e-10`), `π`,
//! `π/2` and `1e-10` being the doubles nearest them. Every double involved is
//! a dyadic rational, so the tests are computed here in integers, in units of
//! `2⁻⁵²`: the remainder of `|x|` by `π` is exact, as in the floating-point
//! remainder; the correction `π − |r|` for a negative argument, and the
//! difference with `π/2`, are exact wherever the comparison can hold, and
//! elsewhere they stay far from the threshold.

use crate::arith::{abs, power};
use crate::evaluation::{float_magnitude, EPSILON_BITS};
use crate::number::SIGN_BIT;
use vstd::prelude::*;

verus! {

/// The double nearest `π`, in units of `2⁻⁵²`.
pub const PI_UNITS: i128 = 14_148_475_504_056_880i128;

/// The double nearest `π/2`, in units of `2⁻⁵²`.
pub const HALF_PI_UNITS: i128 = 7_074_237_752_028_440i128;

/// The double nearest `1e-10` is this integer times `2⁻⁸⁶`.
pub const EPSILON_MANTISSA: i128 = 7_737_125_245_533_627i128;

/// The remainder `w` (in units of `2⁻⁵²`) is a pole: within `1e-10` of `π/2`
/// for `tan` and `sec` (`tangent_like`), within `1e-10` of zero otherwise.
pub open spec fn remainder_is_pole(tangent_like: bool, w: int) -> bool {
    if tangent_like {
        abs(w - HALF_PI_UNITS) * power(2, 34) < EPSILON_MANTISSA
    } else {
        w * power(2, 34) < EPSILON_MANTISSA
    }
}

/// With `a` the remainder of `|x|` by `π` (in units of `2⁻⁵²`), the test at
/// `x`: `rem_euclid` gives `a`, or `π − a` for a negative `x` with `a ≠ 0`.
pub open spec fn multiple_is_pole(tangent_like: bool, negative: bool, a: int) -> bool {
    remainder_is_pole(
        tangent_like,
        if negative && a != 0 {
            PI_UNITS - a
        } else {
            a
        },
    )
}

/// How many low bits of `m` do not fit in the 53 bits of a double.
pub open spec fn rounding_shift(m: nat) -> nat
    decreases m,
{
    if m < 0x20_0000_0000_0000 {
        0
    } else {
        1 + rounding_shift(m / 2)
    }
}

/// The double nearest the integer `n` (ties to the even significand), as an
/// integer: what `n as f64` gives.
pub open spec fn nearest_double(n: int) -> int {
    let m = abs(n) as int;
    let k = rounding_shift(m as nat);
    if k == 0 {
        n
    } else {
        let p = power(2, k);
        let q = m / p;
        let r = m % p;
        let h = p / 2;
        let q2 = if r > h || (r == h && q % 2 == 1) {
            q + 1
        } else {
            q
        };
        if n < 0 {
            -(q2 * p)
        } else {
            q2 * p
        }
    }
}

/// The pole test at the integer `n`, taken as the double `n as f64`.
pub open spec fn integer_is_pole(tangent_like: bool, n: int) -> bool {
    let d = nearest_double(n);
    multiple_is_pole(tangent_like, d < 0, (abs(d) * power(2, 52)) % (PI_UNITS as int))
}

/// The pole test at the double with bit pattern `b`: never at an infinity or
/// a NaN (their remainder is NaN); below one in magnitude, `tan` and `sec`
/// have none and `csc`, `cot` have one at a positive double below `1e-10` and
/// at `-0.0`; otherwise the double is `m · 2^(e − 52)` with `e ≥ 0`, whose
/// remainder by `π` is `(m · 2^e) mod π` in units of `2⁻⁵²`.
pub open spec fn float_is_pole(tangent_like: bool, b: u64) -> bool {
    let negative = b >= SIGN_BIT;
    let mag = float_magnitude(b);
    let eb = mag / 0x10_0000_0000_0000;
    let frac = mag % 0x10_0000_0000_0000;
    if eb == 2047 {
        false
    } else if eb < 1023 {
        if tangent_like {
            false
        } else if negative {
            mag == 0
        } else {
            mag < EPSILON_BITS
        }
    } else {
        let m = frac + 0x10_0000_0000_0000;
        multiple_is_pole(tangent_like, negative, (m * power(2, (eb - 1023) as nat)) % (PI_UNITS as int))
    }
}

/// `(m · 2^s) mod π` in units of `2⁻⁵²`.
fn shifted_remainder(m: i128, s: u32) -> (r: i128)
    requires
        0 <= m,
    ensures
        r == (m * power(2, s as nat)) % (PI_UNITS as int),
        0 <= r < PI_UNITS,
{
    let mut acc: i128 = m % PI_UNITS;
    let mut i: u32 = 0;
    assert(power(2, 0) == 1);
    assert(m * 1 == m);
    while i < s
        invariant
            i <= s,
            0 <= m,
            0 <= acc < PI_UNITS,
            acc == (m * power(2, i as nat)) % (PI_UNITS as int),
        decreases s - i,
    {
        let ghost before = m * power(2, i as nat);
        assert(power(2, (i + 1) as nat) == 2 * power(2, i as nat));
        assert(m * power(2, (i + 1) as nat) == before * 2) by (nonlinear_arith)
            requires
                power(2, (i + 1) as nat) == 2 * power(2, i as nat),
                before == m * power(2, i as nat),
        ;
        proof {
            vstd::arithmetic::div_mod::lemma_mul_mod_noop_left(before, 2, PI_UNITS as int);
        }
        acc = (acc * 2) % PI_UNITS;
        i = i + 1;
    }
    acc
}

/// See [`multiple_is_pole`].
fn multiple_is_pole_exec(tangent_like: bool, negative: bool, a: i128) -> (r: bool)
    requires
        0 <= a < PI_UNITS,
    ensures
        r == multiple_is_pole(tangent_like, negative, a as int),
{
    let w: i128 = if negative && a != 0 { PI_UNITS - a } else { a };
    assert(power(2, 34) == 0x4_0000_0000) by {
        reveal_with_fuel(power, 35);
    }
    if tangent_like {
        let d: i128 = if w >= HALF_PI_UNITS { w - HALF_PI_UNITS } else { HALF_PI_UNITS - w };
        d * 0x4_0000_0000 < EPSILON_MANTISSA
    } else {
        w * 0x4_0000_0000 < EPSILON_MANTISSA
    }
}

/// See [`nearest_double`].
fn nearest_double_exec(n: i64) -> (r: i128)
    ensures
        r == nearest_double(n as int),
        -0x2_0000_0000_0000_0000 <= r <= 0x2_0000_0000_0000_0000,
{
    let m: i128 = if n < 0 { -(n as i128) } else { n as i128 };
    assert(m == abs(n as int));
    let mut cur: i128 = m;
    let mut p: i128 = 1;
    let mut k: u32 = 0;
    assert(power(2, 0) == 1);
    while cur >= 0x20_0000_0000_0000
        invariant
            0 <= m <= 0x8000_0000_0000_0000,
            m == abs(n as int),
            1 <= p < 0x1000,
            p == power(2, k as nat),
            cur == m / p,
            k <= p,
            rounding_shift(m as nat) == k + rounding_shift(cur as nat),
            p * cur <= m,
        decreases cur,
    {
        proof {
            vstd::arithmetic::div_mod::lemma_div_denominator(m as int, p as int, 2);
            vstd::arithmetic::div_mod::lemma_fundamental_div_mod(m as int, (p * 2) as int);
        }
        assert(p < 0x800) by (nonlinear_arith)
            requires
                p * cur <= m,
                cur >= 0x20_0000_0000_0000,
                m <= 0x8000_0000_0000_0000,
                p >= 1,
        ;
        assert(power(2, (k + 1) as nat) == 2 * power(2, k as nat));
        cur = cur / 2;
        p = p * 2;
        k = k + 1;
        assert(p * cur <= m) by (nonlinear_arith)
            requires
                m == p * (m / p) + m % p,
                cur == m / p,
                m % p >= 0,
                p > 0,
        ;
    }
    if k == 0 {
        return n as i128;
    }
    let q: i128 = m / p;
    let rem: i128 = m % p;
    let h: i128 = p / 2;
    let q2: i128 = if rem > h || (rem == h && q % 2 == 1) { q + 1 } else { q };
    assert(0 <= q2 * p <= 0x2_0000_0000_0000_0000) by (nonlinear_arith)
        requires
            0 <= q,
            q <= q2 <= q + 1,
            q < 0x20_0000_0000_0000,
            1 <= p < 0x1000,
    ;
    let v: i128 = q2 * p;
    if n < 0 { -v } else { v }
}

/// See [`integer_is_pole`].
pub fn integer_is_pole_exec(tangent_like: bool, n: i64) -> (r: bool)
    ensures
        r == integer_is_pole(tangent_like, n as int),
{
    let d = nearest_double_exec(n);
    let ad: i128 = if d < 0 { -d } else { d };
    let a = shifted_remainder(ad, 52);
    multiple_is_pole_exec(tangent_like, d < 0, a)
}

/// See [`float_is_pole`].
pub fn float_is_pole_exec(tangent_like: bool, b: u64) -> (r: bool)
    ensures
        r == float_is_pole(tangent_like, b),
{
    let negative = b >= SIGN_BIT;
    let mag: u64 = if negative { b - SIGN_BIT } else { b };
    let eb: u64 = mag / 0x10_0000_0000_0000;
    let frac: u64 = mag % 0x10_0000_0000_0000;
    if eb == 2047 {
        false
    } else if eb < 1023 {
        if tangent_like {
            false
        } else if negative {
            mag == 0
        } else {
            mag < EPSILON_BITS
        }
    } else {
        let m: i128 = frac as i128 + 0x10_0000_0000_0000;
        let a = shifted_remainder(m, (eb - 1023) as u32);
        multiple_is_pole_exec(tangent_like, negative, a)
    }
}

} // verus!
