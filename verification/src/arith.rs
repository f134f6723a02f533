//! Integer facts shared by the number types and the factoring code.

use vstd::prelude::*;

verus! {

/// Greatest common divisor of two naturals (Euclid's recursion).
pub open spec fn gcd(a: nat, b: nat) -> nat
    decreases b,
{
    if b == 0 {
        a
    } else {
        gcd(b, a % b)
    }
}

/// Absolute value of an integer, as a natural.
pub open spec fn abs(x: int) -> nat {
    if x < 0 {
        (-x) as nat
    } else {
        x as nat
    }
}

/// `b` raised to the natural power `e`.
pub open spec fn power(b: int, e: nat) -> int
    decreases e,
{
    if e == 0 {
        1
    } else {
        b * power(b, (e - 1) as nat)
    }
}

/// `d` divides `x`.
pub open spec fn divides(d: int, x: int) -> bool {
    exists|k: int| #[trigger] (d * k) == x
}

/// The gcd divides both of its arguments.
pub proof fn lemma_gcd_divides(a: nat, b: nat)
    ensures
        divides(gcd(a, b) as int, a as int),
        divides(gcd(a, b) as int, b as int),
    decreases b,
{
    if b == 0 {
        assert(gcd(a, b) * 1 == a);
        assert(gcd(a, b) * 0 == 0);
    } else {
        let r = a % b;
        let q = a / b;
        lemma_gcd_divides(b, r);
        let g = gcd(b, r) as int;
        let k1 = choose|k: int| #[trigger] (g * k) == b as int;
        let k2 = choose|k: int| #[trigger] (g * k) == r as int;
        assert(a as int == b * q + r) by {
            vstd::arithmetic::div_mod::lemma_fundamental_div_mod(a as int, b as int);
        }
        assert(g * (k1 * q + k2) == a as int) by (nonlinear_arith)
            requires
                g * k1 == b as int,
                g * k2 == r as int,
                a as int == b * q + r,
        ;
        assert(gcd(a, b) as int == g);
    }
}

/// The gcd is positive as soon as one argument is.
pub proof fn lemma_gcd_positive(a: nat, b: nat)
    requires
        a > 0 || b > 0,
    ensures
        gcd(a, b) > 0,
    decreases b,
{
    if b != 0 {
        lemma_gcd_positive(b, a % b);
    }
}

/// Every common divisor divides the gcd.
pub proof fn lemma_common_divisor_divides_gcd(a: nat, b: nat, d: int)
    requires
        divides(d, a as int),
        divides(d, b as int),
    ensures
        divides(d, gcd(a, b) as int),
    decreases b,
{
    if b != 0 {
        let q = a / b;
        let r = a % b;
        assert(a as int == b * q + r) by {
            vstd::arithmetic::div_mod::lemma_fundamental_div_mod(a as int, b as int);
        }
        let ka = choose|k: int| #[trigger] (d * k) == a as int;
        let kb = choose|k: int| #[trigger] (d * k) == b as int;
        assert(d * (ka - kb * q) == r as int) by (nonlinear_arith)
            requires
                d * ka == a as int,
                d * kb == b as int,
                a as int == b * q + r,
        ;
        lemma_common_divisor_divides_gcd(b, r, d);
    }
}

/// Bézout: the gcd is an integer combination of its arguments.
pub proof fn lemma_bezout(a: nat, b: nat)
    ensures
        exists|x: int, y: int| #[trigger] (a * x + b * y) == gcd(a, b) as int,
    decreases b,
{
    if b == 0 {
        assert(a * 1 + b * 0 == gcd(a, b) as int);
    } else {
        let q = a / b;
        let r = a % b;
        assert(a as int == b * q + r) by {
            vstd::arithmetic::div_mod::lemma_fundamental_div_mod(a as int, b as int);
        }
        lemma_bezout(b, r);
        let (x, y) = choose|x: int, y: int| #[trigger] (b * x + r * y) == gcd(b, r) as int;
        assert(a * y + b * (x - q * y) == b * x + r * y) by (nonlinear_arith)
            requires
                a as int == b * q + r,
        ;
        assert(gcd(a, b) == gcd(b, r));
    }
}

/// Euclid's lemma: a divisor of `a · n` that shares no factor with `n`
/// divides `a`.
pub proof fn lemma_coprime_divides(d: int, a: int, n: int)
    requires
        gcd(abs(n), abs(d)) == 1,
        divides(d, a * n),
    ensures
        divides(d, a),
{
    lemma_bezout(abs(n), abs(d));
    let (y, x) = choose|y: int, x: int| #[trigger] (abs(n) * y + abs(d) * x) == gcd(abs(n), abs(d)) as int;
    let k = choose|k: int| #[trigger] (d * k) == a * n;
    let ad = abs(d) as int;
    let an = abs(n) as int;
    let dx: int = if d < 0 { -x } else { x };
    let ny: int = if n < 0 { -y } else { y };
    if d < 0 {
        assert(ad * x == d * dx) by (nonlinear_arith)
            requires
                ad == -d,
                dx == -x,
        ;
    } else {
        assert(ad * x == d * dx);
    }
    if n < 0 {
        assert(an * y == n * ny) by (nonlinear_arith)
            requires
                an == -n,
                ny == -y,
        ;
    } else {
        assert(an * y == n * ny);
    }
    assert(d * dx + n * ny == 1);
    assert(a * (d * dx + n * ny) == d * (a * dx) + (a * n) * ny) by (nonlinear_arith);
    assert((d * k) * ny == d * (k * ny)) by (nonlinear_arith);
    assert(d * (a * dx) + d * (k * ny) == d * (a * dx + k * ny)) by (nonlinear_arith);
    assert(d * (a * dx + k * ny) == a);
}

} // verus!
