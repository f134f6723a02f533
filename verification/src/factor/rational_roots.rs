//! A quadratic whose discriminant is a square factors: the rational root
//! argument behind the discriminant method.

use crate::arith::{abs, gcd, lemma_coprime_divides};
use crate::factor::quadratic::{
    fits_i128, floor_sqrt, is_floor_sqrt, lemma_floor_sqrt_unique, spec_linear, spec_parse_quadratic,
    spec_quadratic_factorization, spec_reduced, spec_try_quadratic, lemma_reduced,
};
use crate::expr::ExprModel;
use vstd::prelude::*;

verus! {

/// `R = −b ± r` over `D = 2a` is a root of `a·x² + b·x + c` when `r² = b² − 4ac`:
/// `a·R² + b·R·D + c·D² = 0`.
proof fn lemma_root_equation(a: int, b: int, c: int, r: int, big_r: int)
    requires
        r * r == b * b - 4 * a * c,
        big_r == -b + r || big_r == -b - r,
    ensures
        a * (big_r * big_r) + b * (big_r * (2 * a)) + c * ((2 * a) * (2 * a)) == 0,
{
    let t = big_r + b;
    assert(t * t == r * r) by (nonlinear_arith)
        requires
            t == r || t == -r,
    ;
    assert(t * t == big_r * big_r + 2 * (b * big_r) + b * b) by (nonlinear_arith)
        requires
            t == big_r + b,
    ;
    let x = big_r * big_r;
    let y = 2 * (b * big_r);
    let z = 4 * (a * c);
    assert(4 * a * c == 4 * (a * c)) by (nonlinear_arith);
    assert(x + y + z == 0);
    assert(b * (big_r * (2 * a)) == a * y) by (nonlinear_arith)
        requires
            y == 2 * (b * big_r),
    ;
    assert(c * ((2 * a) * (2 * a)) == a * z) by (nonlinear_arith)
        requires
            z == 4 * (a * c),
    ;
    assert(a * x + a * y + a * z == a * (x + y + z)) by (nonlinear_arith);
}

/// `D²·(a·n² + b·n·d + c·d²) = a·(nD)² + b·(nD)·(dD) + c·(dD)²`.
proof fn lemma_scale_form(a: int, b: int, c: int, n: int, d: int, k: int)
    ensures
        (k * k) * (a * (n * n) + b * (n * d) + c * (d * d)) == a * ((n * k) * (n * k)) + b * ((n * k) * (d
            * k)) + c * ((d * k) * (d * k)),
{
    let x = a * (n * n);
    let y = b * (n * d);
    let z = c * (d * d);
    let kk = k * k;
    assert(kk * (x + y + z) == kk * x + kk * y + kk * z) by (nonlinear_arith);
    assert(kk * x == a * ((n * k) * (n * k))) by (nonlinear_arith)
        requires
            x == a * (n * n),
            kk == k * k,
    ;
    assert(kk * y == b * ((n * k) * (d * k))) by (nonlinear_arith)
        requires
            y == b * (n * d),
            kk == k * k,
    ;
    assert(kk * z == c * ((d * k) * (d * k))) by (nonlinear_arith)
        requires
            z == c * (d * d),
            kk == k * k,
    ;
}

/// A root `R/D` written as `n/d` (`n·D = R·d`) is still a root:
/// `a·n² + b·n·d + c·d² = 0`.
proof fn lemma_scaled_root(a: int, b: int, c: int, big_r: int, big_d: int, n: int, d: int)
    requires
        a * (big_r * big_r) + b * (big_r * big_d) + c * (big_d * big_d) == 0,
        n * big_d == big_r * d,
        big_d != 0,
    ensures
        a * (n * n) + b * (n * d) + c * (d * d) == 0,
{
    let p = a * (n * n) + b * (n * d) + c * (d * d);
    lemma_scale_form(a, b, c, n, d, big_d);
    lemma_scale_form(a, b, c, big_r, big_d, d);
    assert(d * big_d == big_d * d) by (nonlinear_arith);
    assert((big_d * big_d) * p == (d * d) * 0);
    assert(big_d * big_d != 0) by (nonlinear_arith)
        requires
            big_d != 0,
    ;
    assert(p == 0) by (nonlinear_arith)
        requires
            (big_d * big_d) * p == 0,
            big_d * big_d != 0,
    ;
}

/// The rational root theorem with the cofactor: a root `n/d` in lowest terms
/// (`d > 0`) splits off the factor `d·x − n` with an integer cofactor `u·x + w`:
/// `a = d·u`, `b = d·w − u·n`, `c = −n·w`.
proof fn lemma_split_root(a: int, b: int, c: int, n: int, d: int) -> (uw: (int, int))
    requires
        a * (n * n) + b * (n * d) + c * (d * d) == 0,
        d > 0,
        gcd(abs(n), abs(d)) == 1,
    ensures
        a == d * uw.0,
        b == d * uw.1 - uw.0 * n,
        c == -n * uw.1,
{
    assert(d * (-(b * n + c * d)) == (a * n) * n) by (nonlinear_arith)
        requires
            a * (n * n) + b * (n * d) + c * (d * d) == 0,
    ;
    lemma_coprime_divides(d, a * n, n);
    lemma_coprime_divides(d, a, n);
    let u = choose|k: int| #[trigger] (d * k) == a;
    assert(d * (u * (n * n) + b * n + c * d) == 0) by (nonlinear_arith)
        requires
            a * (n * n) + b * (n * d) + c * (d * d) == 0,
            d * u == a,
    ;
    assert(u * (n * n) + b * n + c * d == 0) by (nonlinear_arith)
        requires
            d * (u * (n * n) + b * n + c * d) == 0,
            d > 0,
    ;
    assert(d * (-c) == (u * n + b) * n) by (nonlinear_arith)
        requires
            u * (n * n) + b * n + c * d == 0,
    ;
    lemma_coprime_divides(d, u * n + b, n);
    let w = choose|k: int| #[trigger] (d * k) == u * n + b;
    assert(d * (n * w + c) == 0) by (nonlinear_arith)
        requires
            d * (-c) == (u * n + b) * n,
            d * w == u * n + b,
    ;
    assert(n * w + c == 0) by (nonlinear_arith)
        requires
            d * (n * w + c) == 0,
            d > 0,
    ;
    assert(-n * w == -(n * w)) by (nonlinear_arith);
    (u, w)
}

/// `(p·q)·(r·s) = (p·r)·(q·s)`.
proof fn lemma_swap_middle(p: int, q: int, r: int, s: int)
    ensures
        (p * q) * (r * s) == (p * r) * (q * s),
{
    assert((p * q) * (r * s) == (p * r) * (q * s)) by (nonlinear_arith);
}

/// The second root `n₂/d₂` is the root of the cofactor `u·x + w`:
/// `u·n₂ + w·d₂ = 0`.
proof fn lemma_second_root(
    a: int,
    b: int,
    c: int,
    r: int,
    n1: int,
    d1: int,
    n2: int,
    d2: int,
    u: int,
    w: int,
)
    requires
        a == d1 * u,
        b == d1 * w - u * n1,
        c == -n1 * w,
        d1 > 0,
        d2 > 0,
        n1 * (2 * a) == (-b + r) * d1,
        n2 * (2 * a) == (-b - r) * d2,
        a * (n2 * n2) + b * (n2 * d2) + c * (d2 * d2) == 0,
    ensures
        u * n2 + w * d2 == 0,
{
    let f = d1 * n2 - n1 * d2;
    let g = u * n2 + w * d2;
    let sq = n2 * n2;
    let mx = n2 * d2;
    let dd = d2 * d2;
    assert(f * g == (d1 * n2) * g - (n1 * d2) * g) by (nonlinear_arith)
        requires
            f == d1 * n2 - n1 * d2,
    ;
    let x1 = u * n2;
    let y1 = w * d2;
    assert((d1 * n2) * g == (d1 * n2) * x1 + (d1 * n2) * y1) by (nonlinear_arith)
        requires
            g == x1 + y1,
    ;
    assert((n1 * d2) * g == (n1 * d2) * x1 + (n1 * d2) * y1) by (nonlinear_arith)
        requires
            g == x1 + y1,
    ;
    lemma_swap_middle(d1, n2, u, n2);
    lemma_swap_middle(d1, n2, w, d2);
    lemma_swap_middle(n1, d2, u, n2);
    lemma_swap_middle(n1, d2, w, d2);
    assert((d1 * u) * (n2 * n2) == (d1 * u) * sq);
    assert((n1 * u) * (d2 * n2) == (u * n1) * mx) by (nonlinear_arith)
        requires
            mx == n2 * d2,
    ;
    assert((d1 * n2) * g == (d1 * u) * sq + (d1 * w) * mx);
    assert((n1 * d2) * g == (u * n1) * mx + (n1 * w) * dd);
    assert((d1 * w - u * n1) * mx == (d1 * w) * mx - (u * n1) * mx) by (nonlinear_arith);
    assert((-n1 * w) * dd == -((n1 * w) * dd)) by (nonlinear_arith);
    assert(a * (n2 * n2) + b * (n2 * d2) + c * (d2 * d2) == f * g);
    if f != 0 {
        assert(g == 0) by (nonlinear_arith)
            requires
                f * g == 0,
                f != 0,
        ;
    } else {
        // equal roots: then r = 0 and the root is double
        let big_d = 2 * a;
        assert((d1 * d2) * (-b - r) == (d1 * d2) * (-b + r)) by (nonlinear_arith)
            requires
                d1 * n2 == n1 * d2,
                n1 * big_d == (-b + r) * d1,
                n2 * big_d == (-b - r) * d2,
        ;
        assert(d1 * d2 > 0) by (nonlinear_arith)
            requires
                d1 > 0,
                d2 > 0,
        ;
        assert(r == 0) by (nonlinear_arith)
            requires
                (d1 * d2) * (-b - r) == (d1 * d2) * (-b + r),
                d1 * d2 > 0,
        ;
        assert(d1 * (n1 * u + d1 * w) == 0) by (nonlinear_arith)
            requires
                n1 * (2 * a) == (-b) * d1,
                a == d1 * u,
                b == d1 * w - u * n1,
        ;
        assert(n1 * u + d1 * w == 0) by (nonlinear_arith)
            requires
                d1 * (n1 * u + d1 * w) == 0,
                d1 > 0,
        ;
        assert(d1 * g == d2 * (n1 * u + d1 * w)) by (nonlinear_arith)
            requires
                d1 * n2 == n1 * d2,
                g == u * n2 + w * d2,
        ;
        assert(g == 0) by (nonlinear_arith)
            requires
                d1 * g == 0,
                d1 > 0,
        ;
    }
}

/// With `|a|, |b|, |c| ≤ 2³¹`, `a ≠ 0` and `r² = b² − 4ac` (`r ≥ 0`), the roots
/// `(−b ± r)/2a` in lowest terms `n₁/d₁`, `n₂/d₂` give
/// `a·x² + b·x + c = k·(d₁·x − n₁)·(d₂·x − n₂)` with `k = a/(d₁·d₂)` an integer.
proof fn lemma_discriminant_factors(a: int, b: int, c: int, r: int)
    requires
        a != 0,
        -0x8000_0000 <= a <= 0x8000_0000,
        -0x8000_0000 <= b <= 0x8000_0000,
        -0x8000_0000 <= c <= 0x8000_0000,
        r >= 0,
        r * r == b * b - 4 * a * c,
    ensures
        ({
            let (n1, d1) = spec_reduced(-b + r, 2 * a);
            let (n2, d2) = spec_reduced(-b - r, 2 * a);
            let ll = d1 * d2;
            let k = a / ll;
            &&& 0 < d1 <= 0x1_0000_0000
            &&& 0 < d2 <= 0x1_0000_0000
            &&& abs(n1) <= 0x4_0000_0000
            &&& abs(n2) <= 0x4_0000_0000
            &&& ll > 0
            &&& a % ll == 0
            &&& -0x8000_0000 <= k <= 0x8000_0000
            &&& k * ll == a
            &&& k * (d1 * (-n2) + d2 * (-n1)) == b
            &&& k * ((-n1) * (-n2)) == c
        }),
{
    let big_d = 2 * a;
    let r1 = -b + r;
    let r2 = -b - r;
    assert(b * b <= 0x4000_0000_0000_0000) by (nonlinear_arith)
        requires
            -0x8000_0000 <= b <= 0x8000_0000,
    ;
    assert(-0x4000_0000_0000_0000 <= a * c) by (nonlinear_arith)
        requires
            -0x8000_0000 <= a <= 0x8000_0000,
            -0x8000_0000 <= c <= 0x8000_0000,
    ;
    assert(4 * a * c == 4 * (a * c)) by (nonlinear_arith);
    assert(r < 0x2_0000_0000) by (nonlinear_arith)
        requires
            r >= 0,
            r * r <= 0x4000_0000_0000_0000 + 0x1_0000_0000_0000_0000,
    ;
    lemma_root_equation(a, b, c, r, r1);
    lemma_root_equation(a, b, c, r, r2);
    lemma_reduced(r1, big_d);
    lemma_reduced(r2, big_d);
    let (n1, d1) = spec_reduced(r1, big_d);
    let (n2, d2) = spec_reduced(r2, big_d);
    lemma_scaled_root(a, b, c, r1, big_d, n1, d1);
    lemma_scaled_root(a, b, c, r2, big_d, n2, d2);
    let (u, w) = lemma_split_root(a, b, c, n1, d1);
    lemma_second_root(a, b, c, r, n1, d1, n2, d2, u, w);
    assert(d2 * (-w) == u * n2) by (nonlinear_arith)
        requires
            u * n2 + w * d2 == 0,
    ;
    lemma_coprime_divides(d2, u, n2);
    let k = choose|k: int| #[trigger] (d2 * k) == u;
    assert(d2 * (w + k * n2) == 0) by (nonlinear_arith)
        requires
            d2 * (-w) == u * n2,
            d2 * k == u,
    ;
    assert(w == -(k * n2)) by (nonlinear_arith)
        requires
            d2 * (w + k * n2) == 0,
            d2 > 0,
    ;
    let ll = d1 * d2;
    assert(ll > 0) by (nonlinear_arith)
        requires
            d1 > 0,
            d2 > 0,
            ll == d1 * d2,
    ;
    assert(k * ll == a) by (nonlinear_arith)
        requires
            a == d1 * u,
            d2 * k == u,
            ll == d1 * d2,
    ;
    vstd::arithmetic::div_mod::lemma_mod_multiples_basic(k, ll);
    vstd::arithmetic::div_mod::lemma_div_multiples_vanish(k, ll);
    assert(ll * k == k * ll) by (nonlinear_arith);
    assert(a / ll == k);
    assert(k * (d1 * (-n2) + d2 * (-n1)) == b) by (nonlinear_arith)
        requires
            b == d1 * w - u * n1,
            w == -(k * n2),
            u == d2 * k,
    ;
    assert(k * ((-n1) * (-n2)) == c) by (nonlinear_arith)
        requires
            c == -n1 * w,
            w == -(k * n2),
    ;
    assert(-0x8000_0000 <= k <= 0x8000_0000) by (nonlinear_arith)
        requires
            k * ll == a,
            ll >= 1,
            -0x8000_0000 <= a <= 0x8000_0000,
    ;
}

/// `x·y` fits in `i128` when `|x| ≤ 2³⁴` and `|y| ≤ 2³⁴`.
proof fn lemma_small_product(x: int, y: int)
    requires
        -0x4_0000_0000 <= x <= 0x4_0000_0000,
        -0x4_0000_0000 <= y <= 0x4_0000_0000,
    ensures
        -0x10_0000_0000_0000_0000 <= x * y <= 0x10_0000_0000_0000_0000,
{
    assert(-0x10_0000_0000_0000_0000 <= x * y <= 0x10_0000_0000_0000_0000) by (nonlinear_arith)
        requires
            -0x4_0000_0000 <= x <= 0x4_0000_0000,
            -0x4_0000_0000 <= y <= 0x4_0000_0000,
    ;
}

/// Quadratic factoring succeeds on every quadratic with integer coefficients
/// of magnitude at most 2³¹ exactly when its discriminant `b² − 4ac` is the
/// square of an integer: such a quadratic has rational roots, and the
/// discriminant method finds them and the integer factorization they give.
pub proof fn law_square_discriminant_factors(ts: Seq<ExprModel>)
    requires
        spec_parse_quadratic(ts) is Some,
        ({
            let (v, a, b, c) = spec_parse_quadratic(ts)->Some_0;
            &&& -0x8000_0000 <= a <= 0x8000_0000
            &&& -0x8000_0000 <= b <= 0x8000_0000
            &&& -0x8000_0000 <= c <= 0x8000_0000
        }),
    ensures
        spec_try_quadratic(ts) is Some <==> ({
            let (v, a, b, c) = spec_parse_quadratic(ts)->Some_0;
            exists|r: int| #[trigger] (r * r) == b * b - 4 * a * c
        }),
{
    let (v, a, b, c) = spec_parse_quadratic(ts)->Some_0;
    let disc = b * b - 4 * a * c;
    if exists|r: int| #[trigger] (r * r) == disc {
        let r0 = choose|r: int| #[trigger] (r * r) == disc;
        let r: int = if r0 < 0 { -r0 } else { r0 };
        assert(r * r == r0 * r0) by (nonlinear_arith)
            requires
                r == r0 || r == -r0,
        ;
        assert(a != 0);
        lemma_discriminant_factors(a, b, c, r);
        // the integer square root of the discriminant is r
        assert(r * r <= disc < (r + 1) * (r + 1)) by (nonlinear_arith)
            requires
                r * r == disc,
                r >= 0,
        ;
        assert(is_floor_sqrt(disc, r));
        lemma_floor_sqrt_unique(disc, floor_sqrt(disc), r);
        assert(floor_sqrt(disc) == r);
        // every intermediate fits in i128
        assert(0 <= b * b <= 0x4000_0000_0000_0000) by (nonlinear_arith)
            requires
                -0x8000_0000 <= b <= 0x8000_0000,
        ;
        assert(-0x4000_0000_0000_0000 <= a * c <= 0x4000_0000_0000_0000) by (nonlinear_arith)
            requires
                -0x8000_0000 <= a <= 0x8000_0000,
                -0x8000_0000 <= c <= 0x8000_0000,
        ;
        assert(4 * a * c == 4 * (a * c)) by (nonlinear_arith);
        assert(r * r >= 0) by (nonlinear_arith);
        let (n1, d1) = spec_reduced(-b + r, 2 * a);
        let (n2, d2) = spec_reduced(-b - r, 2 * a);
        let ll = d1 * d2;
        let k = a / ll;
        assert(ll <= 0x1_0000_0000_0000_0000) by (nonlinear_arith)
            requires
                0 < d1 <= 0x1_0000_0000,
                0 < d2 <= 0x1_0000_0000,
                ll == d1 * d2,
        ;
        lemma_small_product(d1, -n2);
        lemma_small_product(d2, -n1);
        lemma_small_product(-n1, -n2);
        assert(fits_i128(b * b));
        assert(fits_i128(4 * a * c));
        assert(fits_i128(disc));
        assert(fits_i128(ll));
        assert(fits_i128(d1 * (-n2) + d2 * (-n1)));
        assert(spec_quadratic_factorization(ts) == Some((v, k, d1, -n1, d2, -n2)));
        assert(spec_linear(v, d1, -n1) is Some);
        assert(spec_linear(v, d2, -n2) is Some);
    } else {
        assert forall|r: int| #[trigger] (r * r) != disc by {}
        crate::factor::quadratic::law_irreducible_quadratic_declines(ts);
    }
}

} // verus!
