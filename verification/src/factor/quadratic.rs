//! Quadratic factoring over the integers and the special product patterns.

use crate::arith::{
    abs, divides, gcd, lemma_common_divisor_divides_gcd, lemma_gcd_divides, lemma_gcd_positive, power,
};
use crate::bigint::big_to_i128;
use crate::construct::{int_value, non_consts, prod_consts, spec_add, spec_mul, spec_pow, sum_consts};
use crate::expr::{int_model, lemma_view_seq, view_seq, ExprModel, Expression, Symbol};
use crate::number::{Number, NumberModel};
use crate::value::{
    law_add_keeps_value, law_mul_keeps_value, law_pow_keeps_value, lemma_power_adds, lemma_product_three,
    lemma_product_two, lemma_sum_two, product_values, sum_values, value,
};
use vstd::prelude::*;

verus! {

/// `x` fits in an `i128`.
pub open spec fn fits_i128(x: int) -> bool {
    i128::MIN <= x <= i128::MAX
}

/// `x` fits in an `i64`.
pub open spec fn fits_i64(x: int) -> bool {
    i64::MIN <= x <= i64::MAX
}

/// The integer value of a number that fits in `i128`; floats and fractions have none.
pub open spec fn number_i128(n: NumberModel) -> Option<int> {
    match n {
        NumberModel::Integer(i) => Some(i),
        NumberModel::BigInteger(v) => if fits_i128(v) {
            Some(v)
        } else {
            None
        },
        _ => None,
    }
}

/// A parsed monomial: degree, integer coefficient, and variable (none for a constant).
pub type MonomialSpec = (int, int, Option<Seq<char>>);

/// The variable `s` agrees with the variable seen so far.
pub open spec fn var_agrees(var: Option<Seq<char>>, s: Seq<char>) -> bool {
    var is None || var == Some(s)
}

/// A non-negative machine-integer exponent that fits in `usize`.
pub open spec fn power_degree(exp: ExprModel) -> Option<int> {
    match exp {
        ExprModel::Number(NumberModel::Integer(k)) => if 0 <= k <= usize::MAX {
            Some(k)
        } else {
            None
        },
        _ => None,
    }
}

/// One factor of a product monomial folded into the monomial read so far.
pub open spec fn monomial_step(acc: MonomialSpec, f: ExprModel) -> Option<MonomialSpec> {
    let (deg, coeff, var) = acc;
    match f {
        ExprModel::Number(n) => match number_i128(n) {
            Some(c) => if fits_i128(coeff * c) {
                Some((deg, coeff * c, var))
            } else {
                None
            },
            None => None,
        },
        ExprModel::Symbol(s) => if var_agrees(var, s) && deg + 1 <= usize::MAX {
            Some((deg + 1, coeff, Some(s)))
        } else {
            None
        },
        ExprModel::Pow(base, exp) => match *base {
            ExprModel::Symbol(s) => match power_degree(*exp) {
                Some(k) => if var_agrees(var, s) && deg + k <= usize::MAX {
                    Some((deg + k, coeff, Some(s)))
                } else {
                    None
                },
                None => None,
            },
            _ => None,
        },
        _ => None,
    }
}

/// The monomial read from the factors of a product, from the first to the last.
pub open spec fn monomial_fold(fs: Seq<ExprModel>) -> Option<MonomialSpec>
    decreases fs.len(),
{
    if fs.len() == 0 {
        Some((0, 1, None))
    } else {
        match monomial_fold(fs.drop_last()) {
            Some(acc) => monomial_step(acc, fs.last()),
            None => None,
        }
    }
}

/// A term read as `coeff · var^deg`, or nothing when it has another shape.
pub open spec fn spec_parse_monomial(m: ExprModel) -> Option<MonomialSpec> {
    match m {
        ExprModel::Number(n) => match number_i128(n) {
            Some(c) => Some((0, c, None)),
            None => None,
        },
        ExprModel::Symbol(s) => Some((1, 1, Some(s))),
        ExprModel::Pow(base, exp) => match *base {
            ExprModel::Symbol(s) => match power_degree(*exp) {
                Some(k) => Some((k, 1, Some(s))),
                None => None,
            },
            _ => None,
        },
        ExprModel::Mul(fs) => monomial_fold(fs),
        _ => None,
    }
}

/// Coefficients of degrees 0, 1, 2 and the variable, read so far.
pub type QuadraticState = (int, int, int, Option<Seq<char>>);

/// One term folded into the quadratic read so far.
pub open spec fn quadratic_step(st: QuadraticState, t: ExprModel) -> Option<QuadraticState> {
    let (c0, c1, c2, var) = st;
    match spec_parse_monomial(t) {
        None => None,
        Some((deg, coeff, tv)) => if deg > 2 {
            None
        } else {
            let ok_var = match tv {
                Some(v) => var_agrees(var, v),
                None => true,
            };
            let var2 = match tv {
                Some(v) => Some(v),
                None => var,
            };
            if !ok_var {
                None
            } else if deg == 0 {
                if fits_i128(c0 + coeff) {
                    Some((c0 + coeff, c1, c2, var2))
                } else {
                    None
                }
            } else if deg == 1 {
                if fits_i128(c1 + coeff) {
                    Some((c0, c1 + coeff, c2, var2))
                } else {
                    None
                }
            } else if fits_i128(c2 + coeff) {
                Some((c0, c1, c2 + coeff, var2))
            } else {
                None
            }
        },
    }
}

/// The quadratic read from the terms, from the first to the last.
pub open spec fn quadratic_fold(ts: Seq<ExprModel>) -> Option<QuadraticState>
    decreases ts.len(),
{
    if ts.len() == 0 {
        Some((0, 0, 0, None))
    } else {
        match quadratic_fold(ts.drop_last()) {
            Some(st) => quadratic_step(st, ts.last()),
            None => None,
        }
    }
}

/// The terms of a sum read as `a·v² + b·v + c` with `a ≠ 0`: `(v, a, b, c)`.
pub open spec fn spec_parse_quadratic(ts: Seq<ExprModel>) -> Option<(Seq<char>, int, int, int)> {
    match quadratic_fold(ts) {
        Some((c0, c1, c2, Some(v))) => if c2 == 0 {
            None
        } else {
            Some((v, c2, c1, c0))
        },
        _ => None,
    }
}

/// `r` is the integer square root (floor) of `n`.
pub open spec fn is_floor_sqrt(n: int, r: int) -> bool {
    r >= 0 && r * r <= n < (r + 1) * (r + 1)
}

/// The integer square root of `n ≥ 0`.
pub open spec fn floor_sqrt(n: int) -> int {
    choose|r: int| is_floor_sqrt(n, r)
}

/// `num/den` in lowest terms with a positive denominator.
pub open spec fn spec_reduced(num: int, den: int) -> (int, int) {
    let g = gcd(abs(num), abs(den)) as int;
    let s: int = if den < 0 {
        -1
    } else {
        1
    };
    ((s * num) / g, (s * den) / g)
}

/// The linear factor `l·v + e`, if `l` and `e` fit in `i64`.
pub open spec fn spec_linear(v: Seq<char>, l: int, e: int) -> Option<ExprModel> {
    if !fits_i64(l) {
        None
    } else {
        let lead = spec_mul(seq![int_model(l), ExprModel::Symbol(v)]);
        if e == 0 {
            Some(lead)
        } else if !fits_i64(e) {
            None
        } else {
            Some(spec_add(seq![lead, int_model(e)]))
        }
    }
}

/// A factorization `k·(l1·v + e1)·(l2·v + e2)`: `(v, k, l1, e1, l2, e2)`.
pub type Factorization = (Seq<char>, int, int, int, int, int);

/// The factorization of the quadratic the terms spell, as computed by the
/// discriminant method with every intermediate checked against `i128`.
pub open spec fn spec_quadratic_factorization(ts: Seq<ExprModel>) -> Option<Factorization> {
    match spec_parse_quadratic(ts) {
        None => None,
        Some((v, a, b, c)) => {
            let disc = b * b - 4 * a * c;
            if !fits_i128(b * b) || !fits_i128(4 * a) || !fits_i128(4 * a * c) || !fits_i128(disc) {
                None
            } else if disc < 0 {
                None
            } else if floor_sqrt(disc) * floor_sqrt(disc) != disc {
                None
            } else if !fits_i128(2 * a) {
                None
            } else {
                let root = floor_sqrt(disc);
                let (n1, d1) = spec_reduced(-b + root, 2 * a);
                let (n2, d2) = spec_reduced(-b - root, 2 * a);
                let (l1, e1, l2, e2) = (d1, -n1, d2, -n2);
                let ll = l1 * l2;
                if !fits_i128(ll) || ll == 0 || a % ll != 0 {
                    None
                } else {
                    let k = a / ll;
                    if !fits_i128(k * ll) || !fits_i128(l1 * e2) || !fits_i128(l2 * e1) || !fits_i128(
                        l1 * e2 + l2 * e1,
                    ) || !fits_i128(k * (l1 * e2 + l2 * e1)) || !fits_i128(e1 * e2) || !fits_i128(
                        k * (e1 * e2),
                    ) {
                        None
                    } else if k * ll != a || k * (l1 * e2 + l2 * e1) != b || k * (e1 * e2) != c {
                        None
                    } else {
                        Some((v, k, l1, e1, l2, e2))
                    }
                }
            }
        },
    }
}

/// The expression built for a factorization: `(l1·v + e1)(l2·v + e2)`, preceded by
/// `k` unless it is one; nothing when a coefficient does not fit in `i64`.
pub open spec fn spec_factorization_expr(f: Factorization) -> Option<ExprModel> {
    let (v, k, l1, e1, l2, e2) = f;
    match (spec_linear(v, l1, e1), spec_linear(v, l2, e2)) {
        (Some(f1), Some(f2)) => if k == 1 {
            Some(spec_mul(seq![f1, f2]))
        } else if fits_i64(k) {
            Some(spec_mul(seq![int_model(k), f1, f2]))
        } else {
            None
        },
        _ => None,
    }
}

/// What quadratic factoring returns for the terms.
pub open spec fn spec_try_quadratic(ts: Seq<ExprModel>) -> Option<ExprModel> {
    match spec_quadratic_factorization(ts) {
        Some(f) => spec_factorization_expr(f),
        None => None,
    }
}

/// The square `l²` of a linear factor, if there is one.
pub open spec fn square_of(l: Option<ExprModel>) -> Option<ExprModel> {
    match l {
        Some(x) => Some(spec_pow(x, int_model(2))),
        None => None,
    }
}

/// Three terms read as a perfect square trinomial `a·v² + b·v + c` with
/// `a = p²` (`p > 0`), `c = q²` (`q ≥ 0`) and `b = 2pq` or `b = −2pq`: the
/// square `(p·v + q)²` or `(p·v − q)²`; nothing for any other terms, or when
/// `p` or `q` does not fit in `i64`.
pub open spec fn spec_perfect_square(ts: Seq<ExprModel>) -> Option<ExprModel> {
    if ts.len() != 3 {
        None
    } else {
        match spec_parse_quadratic(ts) {
            None => None,
            Some((v, a, b, c)) => if a <= 0 || c < 0 {
                None
            } else {
                let p = floor_sqrt(a);
                let q = floor_sqrt(c);
                if p * p != a || q * q != c {
                    None
                } else if b == 2 * (p * q) {
                    square_of(spec_linear(v, p, q))
                } else if b == -2 * (p * q) {
                    square_of(spec_linear(v, p, -q))
                } else {
                    None
                }
            },
        }
    }
}

/// The name of an optional variable.
pub open spec fn var_name(v: Option<Symbol>) -> Option<Seq<char>> {
    match v {
        Some(s) => Some(s.name@),
        None => None,
    }
}

/// A product whose first factors already fail to read as a monomial fails.
proof fn lemma_monomial_fold_fails(fs: Seq<ExprModel>, i: int)
    requires
        0 <= i <= fs.len(),
        monomial_fold(fs.take(i)) is None,
    ensures
        monomial_fold(fs) is None,
    decreases fs.len() - i,
{
    if i == fs.len() {
        assert(fs.take(i) =~= fs);
    } else {
        assert(fs.take(i + 1).drop_last() =~= fs.take(i));
        lemma_monomial_fold_fails(fs, i + 1);
    }
}

/// A sum whose first terms already fail to read as a quadratic fails.
proof fn lemma_quadratic_fold_fails(ts: Seq<ExprModel>, i: int)
    requires
        0 <= i <= ts.len(),
        quadratic_fold(ts.take(i)) is None,
    ensures
        quadratic_fold(ts) is None,
    decreases ts.len() - i,
{
    if i == ts.len() {
        assert(ts.take(i) =~= ts);
    } else {
        assert(ts.take(i + 1).drop_last() =~= ts.take(i));
        lemma_quadratic_fold_fails(ts, i + 1);
    }
}

/// The integer value of a number, if it fits in `i128`.
fn number_to_i128(n: &Number) -> (r: Option<i128>)
    ensures
        r is Some <==> number_i128(n@) is Some,
        r matches Some(v) ==> number_i128(n@) == Some(v as int),
{
    match n {
        Number::Integer(i) => Some(*i as i128),
        Number::BigInteger(b) => big_to_i128(b),
        _ => None,
    }
}

/// The exponent of a power read as a degree (non-negative, fits in `usize`).
fn exponent_degree(exp: &Expression) -> (r: Option<usize>)
    ensures
        r is Some <==> power_degree(exp@) is Some,
        r matches Some(k) ==> power_degree(exp@) == Some(k as int),
{
    match exp {
        Expression::Number(Number::Integer(k)) => {
            if *k < 0 || *k as u128 > usize::MAX as u128 {
                None
            } else {
                Some(*k as usize)
            }
        },
        _ => None,
    }
}

/// Parse one term into `(degree, integer coefficient, variable)`; the variable is
/// `None` for a constant term. Declines on any non-monomial shape.
fn parse_monomial(term: &Expression) -> (r: Option<(usize, i128, Option<Symbol>)>)
    ensures
        r is Some <==> spec_parse_monomial(term@) is Some,
        r matches Some((d, c, v)) ==> spec_parse_monomial(term@) == Some(
            (d as int, c as int, var_name(v)),
        ),
{
    match term {
        Expression::Number(n) => match number_to_i128(n) {
            Some(c) => Some((0, c, None)),
            None => None,
        },
        Expression::Symbol(s) => Some((1, 1, Some(s.clone()))),
        Expression::Pow(base, exp) => {
            let s = match &**base {
                Expression::Symbol(s) => s,
                _ => {
                    assert(!((**base)@ is Symbol));
                    return None;
                },
            };
            match exponent_degree(exp) {
                Some(k) => Some((k, 1, Some(s.clone()))),
                None => None,
            }
        },
        Expression::Mul(factors) => {
            let ghost fs = view_seq(factors@);
            proof {
                lemma_view_seq(factors@);
            }
            let mut coeff: i128 = 1;
            let mut deg: usize = 0;
            let mut var: Option<Symbol> = None;
            let mut i: usize = 0;
            #[verifier::loop_isolation(false)]
            while i < factors.len()
                invariant
                    i <= factors.len(),
                    monomial_fold(fs.take(i as int)) == Some((deg as int, coeff as int, var_name(var))),
                decreases factors.len() - i,
            {
                assert(fs.take(i + 1).drop_last() =~= fs.take(i as int));
                assert(fs.take(i + 1).last() == factors@[i as int]@);
                match &factors[i] {
                    Expression::Number(n) => {
                        let c = match number_to_i128(n) {
                            Some(c) => c,
                            None => {
                                proof {
                                    lemma_monomial_fold_fails(fs, i + 1);
                                }
                                return None;
                            },
                        };
                        coeff = match coeff.checked_mul(c) {
                            Some(p) => p,
                            None => {
                                proof {
                                    lemma_monomial_fold_fails(fs, i + 1);
                                }
                                return None;
                            },
                        };
                    },
                    Expression::Symbol(s) => {
                        let conflict = match &var {
                            Some(v) => !v.same(s),
                            None => false,
                        };
                        if conflict {
                            proof {
                                lemma_monomial_fold_fails(fs, i + 1);
                            }
                            return None;
                        }
                        var = Some(s.clone());
                        deg = match deg.checked_add(1) {
                            Some(d) => d,
                            None => {
                                proof {
                                    lemma_monomial_fold_fails(fs, i + 1);
                                }
                                return None;
                            },
                        };
                    },
                    Expression::Pow(base, exp) => {
                        let s = match &**base {
                            Expression::Symbol(s) => s,
                            _ => {
                                proof {
                                    assert(!((**base)@ is Symbol));
                                    lemma_monomial_fold_fails(fs, i + 1);
                                }
                                return None;
                            },
                        };
                        let conflict = match &var {
                            Some(v) => !v.same(s),
                            None => false,
                        };
                        if conflict {
                            proof {
                                lemma_monomial_fold_fails(fs, i + 1);
                            }
                            return None;
                        }
                        var = Some(s.clone());
                        let kd = match exponent_degree(exp) {
                            Some(kd) => kd,
                            None => {
                                proof {
                                    lemma_monomial_fold_fails(fs, i + 1);
                                }
                                return None;
                            },
                        };
                        deg = match deg.checked_add(kd) {
                            Some(d) => d,
                            None => {
                                proof {
                                    lemma_monomial_fold_fails(fs, i + 1);
                                }
                                return None;
                            },
                        };
                    },
                    _ => {
                        proof {
                            lemma_monomial_fold_fails(fs, i + 1);
                        }
                        return None;
                    },
                }
                i = i + 1;
            }
            assert(fs.take(factors.len() as int) =~= fs);
            Some((deg, coeff, var))
        },
        _ => None,
    }
}

/// Parse the terms of a sum into a single-variable integer quadratic
/// `a·v² + b·v + c`, returning `(v, a, b, c)` with `a ≠ 0`. Declines on anything
/// that is not exactly a degree-2 univariate integer polynomial.
fn parse_integer_quadratic(terms: &[Expression]) -> (r: Option<(Symbol, i128, i128, i128)>)
    ensures
        r is Some <==> spec_parse_quadratic(view_seq(terms@)) is Some,
        r matches Some((v, a, b, c)) ==> spec_parse_quadratic(view_seq(terms@)) == Some(
            (v.name@, a as int, b as int, c as int),
        ),
{
    let ghost ts = view_seq(terms@);
    proof {
        lemma_view_seq(terms@);
    }
    let mut c0: i128 = 0;
    let mut c1: i128 = 0;
    let mut c2: i128 = 0;
    let mut var: Option<Symbol> = None;
    let mut i: usize = 0;
    #[verifier::loop_isolation(false)]
    while i < terms.len()
        invariant
            i <= terms.len(),
            quadratic_fold(ts.take(i as int)) == Some(
                (c0 as int, c1 as int, c2 as int, var_name(var)),
            ),
        decreases terms.len() - i,
    {
        assert(ts.take(i + 1).drop_last() =~= ts.take(i as int));
        assert(ts.take(i + 1).last() == terms@[i as int]@);
        let (deg, coeff, term_var) = match parse_monomial(&terms[i]) {
            Some(m) => m,
            None => {
                proof {
                    lemma_quadratic_fold_fails(ts, i + 1);
                }
                return None;
            },
        };
        if deg > 2 {
            proof {
                lemma_quadratic_fold_fails(ts, i + 1);
            }
            return None;
        }
        match term_var {
            Some(v) => {
                let conflict = match &var {
                    Some(existing) => !existing.same(&v),
                    None => false,
                };
                if conflict {
                    proof {
                    lemma_quadratic_fold_fails(ts, i + 1);
                }
                return None;
                }
                var = Some(v);
            },
            None => {},
        }
        if deg == 0 {
            c0 = match c0.checked_add(coeff) {
                Some(x) => x,
                None => {
                    proof {
                    lemma_quadratic_fold_fails(ts, i + 1);
                }
                return None;
                },
            };
        } else if deg == 1 {
            c1 = match c1.checked_add(coeff) {
                Some(x) => x,
                None => {
                    proof {
                    lemma_quadratic_fold_fails(ts, i + 1);
                }
                return None;
                },
            };
        } else {
            c2 = match c2.checked_add(coeff) {
                Some(x) => x,
                None => {
                    proof {
                    lemma_quadratic_fold_fails(ts, i + 1);
                }
                return None;
                },
            };
        }
        i = i + 1;
    }
    assert(ts.take(terms.len() as int) =~= ts);
    match var {
        Some(v) => {
            if c2 == 0 {
                None
            } else {
                Some((v, c2, c1, c0))
            }
        },
        None => None,
    }
}


/// `num_integer::gcd` on `i128`: the non-negative gcd of the absolute values (it
/// overflows on `i128::MIN`, which `requires` rules out).
#[verifier::external_body]
fn gcd_i128(a: i128, b: i128) -> (r: i128)
    requires
        a > i128::MIN,
        b > i128::MIN,
    ensures
        r as int == gcd(abs(a as int), abs(b as int)),
{
    num_integer::gcd(a, b)
}

/// The integer square root is unique.
pub(crate) proof fn lemma_floor_sqrt_unique(n: int, r1: int, r2: int)
    requires
        is_floor_sqrt(n, r1),
        is_floor_sqrt(n, r2),
    ensures
        r1 == r2,
{
    if r1 < r2 {
        assert((r1 + 1) * (r1 + 1) <= r2 * r2) by (nonlinear_arith)
            requires
                0 <= r1 + 1 <= r2,
        ;
    } else if r2 < r1 {
        assert((r2 + 1) * (r2 + 1) <= r1 * r1) by (nonlinear_arith)
            requires
                0 <= r2 + 1 <= r1,
        ;
    }
}

/// A Newton step never goes below a number whose square is at most `n`.
proof fn lemma_newton_step(n: int, x: int, q: int, t: int)
    requires
        x >= 1,
        x * q <= n < x * (q + 1),
        t >= 0,
        t * t <= n,
    ensures
        x + q >= 2 * t,
{
    assert((x + q + 1) * (x + q + 1) >= 4 * (x * (q + 1))) by (nonlinear_arith)
        requires
            x >= 1,
    ;
    assert(q >= 0) by (nonlinear_arith)
        requires
            x >= 1,
            n < x * (q + 1),
            t * t <= n,
    ;
    assert(x + q + 1 > 2 * t) by (nonlinear_arith)
        requires
            (x + q + 1) * (x + q + 1) > 4 * (t * t),
            t >= 0,
            x + q + 1 >= 0,
    ;
}

/// `t²`.
pub open spec fn square(t: int) -> int {
    t * t
}

/// Non-negative integer square root of `n ≥ 0` (floor), by Newton's iteration.
fn isqrt(n: i128) -> (r: i128)
    requires
        n >= 0,
    ensures
        is_floor_sqrt(n as int, r as int),
{
    if n < 2 {
        assert(n * n <= n) by (nonlinear_arith)
            requires
                0 <= n < 2,
        ;
        assert(n < (n + 1) * (n + 1)) by (nonlinear_arith)
            requires
                0 <= n,
        ;
        return n;
    }
    let mut x: i128 = n;
    let mut q: i128 = n / x;
    let mut y: i128 = x / 2 + q / 2 + (x % 2 + q % 2) / 2;
    assert forall|t: int| t >= 0 && #[trigger] square(t) <= n implies t <= x by {
        if t >= 1 {
            assert(t <= t * t) by (nonlinear_arith)
                requires
                    t >= 1,
            ;
        }
    }
    while y < x
        invariant
            2 <= n,
            1 <= x <= n,
            q == n / x,
            y == (x + q) / 2,
            forall|t: int| t >= 0 && #[trigger] square(t) <= n ==> t <= x,
        decreases x,
    {
        assert(x * q <= n < x * (q + 1)) by {
            vstd::arithmetic::div_mod::lemma_fundamental_div_mod(n as int, x as int);
            vstd::arithmetic::div_mod::lemma_mod_bound(n as int, x as int);
            assert(x * (q + 1) == x * q + x) by (nonlinear_arith);
        }
        assert forall|t: int| t >= 0 && #[trigger] square(t) <= n implies t <= y by {
            lemma_newton_step(n as int, x as int, q as int, t);
        }
        assert(q >= 1) by {
            vstd::arithmetic::div_mod::lemma_div_is_ordered(x as int, n as int, x as int);
            vstd::arithmetic::div_mod::lemma_div_by_self(x as int);
        }
        x = y;
        q = n / x;
        y = x / 2 + q / 2 + (x % 2 + q % 2) / 2;
    }
    assert(x * q <= n) by {
        vstd::arithmetic::div_mod::lemma_fundamental_div_mod(n as int, x as int);
        vstd::arithmetic::div_mod::lemma_mod_bound(n as int, x as int);
    }
    assert(x * x <= n) by (nonlinear_arith)
        requires
            x * q <= n,
            x <= q,
            x >= 1,
    ;
    assert(n < (x + 1) * (x + 1)) by {
        if (x + 1) * (x + 1) <= n {
            assert(square(x + 1) <= n);
            assert(x + 1 <= x);
        }
    }
    x
}

/// What reducing `num/den` (`den ≠ 0`) gives: a positive denominator, the same
/// ratio, lowest terms, and no larger parts.
pub(crate) proof fn lemma_reduced(num: int, den: int)
    requires
        den != 0,
    ensures
        ({
            let (n, d) = spec_reduced(num, den);
            &&& d > 0
            &&& n * den == num * d
            &&& gcd(abs(n), abs(d)) == 1
            &&& abs(n) <= abs(num)
            &&& d <= abs(den)
        }),
{
    let g = gcd(abs(num), abs(den)) as int;
    lemma_gcd_positive(abs(num), abs(den));
    lemma_gcd_divides(abs(num), abs(den));
    let s: int = if den < 0 { -1 } else { 1 };
    let sn: int = if num < 0 { -1 } else { 1 };
    let kn = choose|k: int| #[trigger] (g * k) == abs(num) as int;
    let kd = choose|k: int| #[trigger] (g * k) == abs(den) as int;
    assert(abs(num) == sn * num);
    assert(abs(den) == s * den);
    assert(kd > 0) by (nonlinear_arith)
        requires
            g * kd == abs(den) as int,
            abs(den) > 0,
            g > 0,
    ;
    assert(kn >= 0) by (nonlinear_arith)
        requires
            g * kn == abs(num) as int,
            g > 0,
    ;
    // s·num = g·(s·sn·kn) and s·den = g·kd
    let n0 = s * sn * kn;
    assert(s * num == g * n0) by (nonlinear_arith)
        requires
            g * kn == sn * num,
            n0 == s * sn * kn,
            sn * sn == 1,
    ;
    assert(s * den == g * kd) by (nonlinear_arith)
        requires
            g * kd == s * den,
    ;
    vstd::arithmetic::div_mod::lemma_div_multiples_vanish(n0, g);
    vstd::arithmetic::div_mod::lemma_div_multiples_vanish(kd, g);
    assert(g * n0 == n0 * g) by (nonlinear_arith);
    assert(g * kd == kd * g) by (nonlinear_arith);
    let (n, d) = spec_reduced(num, den);
    assert(n == n0);
    assert(d == kd);
    assert(n * den == num * d) by (nonlinear_arith)
        requires
            s * num == g * n,
            s * den == g * d,
            s * s == 1,
    ;
    assert(abs(n) == kn) by (nonlinear_arith)
        requires
            n == s * sn * kn,
            s * s == 1,
            sn * sn == 1,
            kn >= 0,
            abs(n) == (if n < 0 { -n } else { n }),
    ;
    assert(kn <= abs(num)) by (nonlinear_arith)
        requires
            g * kn == abs(num) as int,
            g >= 1,
            kn >= 0,
    ;
    assert(kd <= abs(den)) by (nonlinear_arith)
        requires
            g * kd == abs(den) as int,
            g >= 1,
            kd >= 0,
    ;
    // lowest terms: a common divisor h of n and d gives the divisor h·g of num and den
    let h = gcd(abs(n), abs(d)) as int;
    lemma_gcd_divides(abs(n), abs(d));
    lemma_gcd_positive(abs(n), abs(d));
    let hn = choose|k: int| #[trigger] (h * k) == abs(n) as int;
    let hd = choose|k: int| #[trigger] (h * k) == abs(d) as int;
    assert((h * g) * hn == abs(num) as int) by (nonlinear_arith)
        requires
            h * hn == kn,
            g * kn == abs(num) as int,
    ;
    assert((h * g) * hd == abs(den) as int) by (nonlinear_arith)
        requires
            h * hd == kd,
            g * kd == abs(den) as int,
    ;
    lemma_common_divisor_divides_gcd(abs(num), abs(den), h * g);
    let m = choose|k: int| #[trigger] ((h * g) * k) == g;
    assert(h * m == 1) by (nonlinear_arith)
        requires
            (h * g) * m == g,
            g > 0,
    ;
    assert(h == 1) by (nonlinear_arith)
        requires
            h * m == 1,
            h > 0,
    ;
}

/// Reduce `num/den` to lowest terms with a positive denominator; `None` if `den == 0`.
fn reduced_fraction(num: i128, den: i128) -> (r: Option<(i128, i128)>)
    requires
        num > i128::MIN,
        den > i128::MIN,
    ensures
        r is Some <==> den != 0,
        r matches Some((n, d)) ==> (n as int, d as int) == spec_reduced(num as int, den as int),
        r matches Some((n, d)) ==> d > 0 && n * den == num * d && gcd(abs(n as int), abs(d as int)) == 1,
        r matches Some((n, d)) ==> abs(n as int) <= abs(num as int) && d <= abs(den as int),
{
    if den == 0 {
        return None;
    }
    let an: i128 = if num < 0 { -num } else { num };
    let ad: i128 = if den < 0 { -den } else { den };
    let g0 = gcd_i128(an, ad);
    let g: i128 = if g0 < 1 { 1 } else { g0 };
    proof {
        lemma_gcd_positive(abs(num as int), abs(den as int));
        lemma_gcd_divides(abs(num as int), abs(den as int));
    }
    assert(g == g0);
    let qn = an / g;
    let qd = ad / g;
    let ghost kn = choose|k: int| #[trigger] (g * k) == an as int;
    let ghost kd = choose|k: int| #[trigger] (g * k) == ad as int;
    proof {
        vstd::arithmetic::div_mod::lemma_div_multiples_vanish(kn, g as int);
        vstd::arithmetic::div_mod::lemma_div_multiples_vanish(kd, g as int);
    }
    assert(qn == kn && qd == kd);
    let mut n: i128 = if num < 0 { -qn } else { qn };
    let mut d: i128 = if den < 0 { -qd } else { qd };
    if d < 0 {
        n = -n;
        d = -d;
    }
    proof {
        let s: int = if den < 0 { -1 } else { 1 };
        let sn: int = if num < 0 { -1 } else { 1 };
        if num < 0 {
            assert(sn * num == -num) by (nonlinear_arith)
                requires
                    sn == -1,
            ;
        } else {
            assert(sn * num == num) by (nonlinear_arith)
                requires
                    sn == 1,
            ;
        }
        if den < 0 {
            assert(s * den == -den) by (nonlinear_arith)
                requires
                    s == -1,
            ;
        } else {
            assert(s * den == den) by (nonlinear_arith)
                requires
                    s == 1,
            ;
        }
        assert(an == sn * num);
        assert(ad == s * den);
        assert(qd > 0) by (nonlinear_arith)
            requires
                g * qd == ad,
                ad > 0,
                g > 0,
        ;
        assert(d == qd);
        assert(s * sn * qn == (if (num < 0) == (den < 0) { qn as int } else { -qn })) by (nonlinear_arith)
            requires
                s == (if den < 0 { -1int } else { 1 }),
                sn == (if num < 0 { -1int } else { 1 }),
        ;
        assert(n == s * sn * qn);
        assert(s * num == g * n) by (nonlinear_arith)
            requires
                g * qn == an,
                an == sn * num,
                n == s * sn * qn,
                sn * sn == 1,
        ;
        assert(s * den == g * d) by (nonlinear_arith)
            requires
                g * qd == ad,
                ad == s * den,
                d == qd,
        ;
        vstd::arithmetic::div_mod::lemma_div_multiples_vanish(n as int, g as int);
        vstd::arithmetic::div_mod::lemma_div_multiples_vanish(d as int, g as int);
        lemma_reduced(num as int, den as int);
    }
    Some((n, d))
}

/// The machine integer `k`, if it fits in `i64`.
fn int_expr(k: i128) -> (r: Option<Expression>)
    ensures
        r is Some <==> fits_i64(k as int),
        r matches Some(e) ==> e@ == int_model(k as int),
{
    if i64::MIN as i128 <= k && k <= i64::MAX as i128 {
        Some(Expression::integer(k as i64))
    } else {
        None
    }
}

/// Build the linear factor `l·v + e` (canonicalised by `mul`/`add`).
fn build_linear(var: &Symbol, l: i128, e: i128) -> (r: Option<Expression>)
    ensures
        r is Some <==> spec_linear(var.name@, l as int, e as int) is Some,
        r matches Some(x) ==> spec_linear(var.name@, l as int, e as int) == Some(x@),
{
    let lc = match int_expr(l) {
        Some(x) => x,
        None => {
            return None;
        },
    };
    let parts = vec![lc, Expression::Symbol(var.clone())];
    proof {
        lemma_view_seq(parts@);
        assert(view_seq(parts@) =~= seq![int_model(l as int), ExprModel::Symbol(var.name@)]);
    }
    let lead = Expression::mul(parts);
    if e == 0 {
        Some(lead)
    } else {
        let ec = match int_expr(e) {
            Some(x) => x,
            None => {
                return None;
            },
        };
        let ghost lead_model = lead@;
        let terms = vec![lead, ec];
        proof {
            lemma_view_seq(terms@);
            assert(view_seq(terms@) =~= seq![lead_model, int_model(e as int)]);
        }
        Some(Expression::add(terms))
    }
}


/// The exact quotient `a / m` when `m > 0` divides `a`.
fn exact_quotient(a: i128, m: i128) -> (r: Option<i128>)
    requires
        m > 0,
        a > i128::MIN,
    ensures
        r is Some <==> a % m == 0,
        r matches Some(k) ==> k == a / m && k * m == a,
{
    let aa: i128 = if a < 0 { -a } else { a };
    if aa % m != 0 {
        proof {
            if a < 0 && a % m == 0 {
                vstd::arithmetic::div_mod::lemma_fundamental_div_mod(a as int, m as int);
                let k: int = a as int / m as int;
                assert((-k) * (m as int) == -(a as int)) by (nonlinear_arith)
                    requires
                        a as int == (m as int) * k,
                ;
                vstd::arithmetic::div_mod::lemma_mod_multiples_basic(-k, m as int);
            }
        }
        return None;
    }
    let q = aa / m;
    proof {
        vstd::arithmetic::div_mod::lemma_fundamental_div_mod(aa as int, m as int);
    }
    let k: i128 = if a < 0 { -q } else { q };
    proof {
        assert(k * m == a) by (nonlinear_arith)
            requires
                aa == m * q,
                aa == (if a < 0 { -a } else { a as int }),
                k == (if a < 0 { -q } else { q as int }),
        ;
        vstd::arithmetic::div_mod::lemma_div_multiples_vanish(k as int, m as int);
        vstd::arithmetic::div_mod::lemma_mod_multiples_basic(k as int, m as int);
        assert(m * k == k * m) by (nonlinear_arith);
    }
    Some(k)
}

/// `|b| < 2^64` when `b²` fits in `i128`; likewise for a square root.
proof fn lemma_square_bound(b: int)
    requires
        b * b <= i128::MAX,
    ensures
        -18446744073709551616 < b < 18446744073709551616,
{
    if b >= 18446744073709551616 {
        assert(b * b >= 18446744073709551616 * 18446744073709551616) by (nonlinear_arith)
            requires
                b >= 18446744073709551616,
        ;
    }
    if b <= -18446744073709551616 {
        assert(b * b >= 18446744073709551616 * 18446744073709551616) by (nonlinear_arith)
            requires
                b <= -18446744073709551616,
        ;
    }
}

/// The value of the variable of a parsed monomial (zero when there is none).
pub open spec fn var_value(var: Option<Seq<char>>, env: spec_fn(ExprModel) -> int) -> int {
    match var {
        Some(v) => env(ExprModel::Symbol(v)),
        None => 0,
    }
}

/// A product read as a monomial has the value `coeff · var^deg`.
proof fn lemma_monomial_fold_value(fs: Seq<ExprModel>, env: spec_fn(ExprModel) -> int)
    requires
        monomial_fold(fs) is Some,
    ensures
        ({
            let (d, c, var) = monomial_fold(fs)->Some_0;
            &&& d >= 0
            &&& (var is None ==> d == 0)
            &&& product_values(fs, env) == c * power(var_value(var, env), d as nat)
        }),
    decreases fs.len(),
{
    if fs.len() == 0 {
        assert(product_values(fs, env) == 1);
    } else {
        let t = fs.drop_last();
        assert(fs.subrange(0, fs.len() - 1) =~= t);
        lemma_monomial_fold_value(t, env);
        let (d0, c0, v0) = monomial_fold(t)->Some_0;
        let f = fs.last();
        let p0 = power(var_value(v0, env), d0 as nat);
        let prev = product_values(t, env);
        assert(prev == c0 * p0);
        match f {
            ExprModel::Number(n) => {
                let cn = number_i128(n)->Some_0;
                assert(value(f, env) == cn);
                assert((c0 * p0) * cn == (c0 * cn) * p0) by (nonlinear_arith);
            },
            ExprModel::Symbol(sv) => {
                let x = env(ExprModel::Symbol(sv));
                assert(value(f, env) == x);
                assert(power(x, (d0 + 1) as nat) == x * power(x, d0 as nat));
                if v0 is None {
                    assert(power(x, 0) == 1);
                    assert(p0 == 1);
                }
                assert(var_value(Some(sv), env) == x);
                assert(power(x, d0 as nat) == p0);
                assert((c0 * p0) * x == c0 * (x * p0)) by (nonlinear_arith);
            },
            ExprModel::Pow(base, exp) => {
                let sv = base->Symbol_0;
                let k = power_degree(*exp)->Some_0;
                let x = env(ExprModel::Symbol(sv));
                assert(value(*base, env) == x);
                assert(value(f, env) == power(x, k as nat));
                lemma_power_adds(x, d0 as nat, k as nat);
                if v0 is None {
                    assert(power(x, 0) == 1);
                }
                assert(power(x, d0 as nat) == p0);
                let pk = power(x, k as nat);
                assert((c0 * p0) * pk == c0 * (p0 * pk)) by (nonlinear_arith);
            },
            _ => {},
        }
    }
}

/// A term read as a monomial has the value `coeff · var^deg`.
proof fn lemma_parse_monomial_value(m: ExprModel, env: spec_fn(ExprModel) -> int)
    requires
        spec_parse_monomial(m) is Some,
    ensures
        ({
            let (d, c, var) = spec_parse_monomial(m)->Some_0;
            &&& 0 <= d
            &&& (var is None ==> d == 0)
            &&& value(m, env) == c * power(var_value(var, env), d as nat)
        }),
{
    let (d, c, var) = spec_parse_monomial(m)->Some_0;
    match m {
        ExprModel::Number(n) => {
            assert(power(var_value(var, env), 0) == 1);
            assert(value(m, env) == c);
        },
        ExprModel::Symbol(sv) => {
            let x = env(ExprModel::Symbol(sv));
            assert(power(x, 0) == 1);
            assert(power(x, 1) == x * power(x, 0));
            assert(value(m, env) == x);
        },
        ExprModel::Pow(base, exp) => {
            let sv = base->Symbol_0;
            let x = env(ExprModel::Symbol(sv));
            assert(value(*base, env) == x);
            assert(value(m, env) == power(x, d as nat));
        },
        ExprModel::Mul(fs) => {
            lemma_monomial_fold_value(fs, env);
        },
        _ => {},
    }
}

/// The terms read as a quadratic sum to `c0 + c1·x + c2·x²`.
proof fn lemma_quadratic_fold_value(ts: Seq<ExprModel>, env: spec_fn(ExprModel) -> int)
    requires
        quadratic_fold(ts) is Some,
    ensures
        ({
            let (c0, c1, c2, var) = quadratic_fold(ts)->Some_0;
            let x = var_value(var, env);
            &&& (var is None ==> c1 == 0 && c2 == 0)
            &&& sum_values(ts, env) == c0 + c1 * x + c2 * (x * x)
        }),
    decreases ts.len(),
{
    if ts.len() == 0 {
        assert(sum_values(ts, env) == 0);
    } else {
        let t = ts.drop_last();
        assert(ts.subrange(0, ts.len() - 1) =~= t);
        lemma_quadratic_fold_value(t, env);
        let last = ts.last();
        lemma_parse_monomial_value(last, env);
        let (c0, c1, c2, var) = quadratic_fold(t)->Some_0;
        let (deg, coeff, tv) = spec_parse_monomial(last)->Some_0;
        let xt = var_value(tv, env);
        let x = var_value(var, env);
        let var2 = match tv {
            Some(v) => Some(v),
            None => var,
        };
        let x2 = var_value(var2, env);
        assert(power(xt, 0) == 1);
        assert(power(xt, 1) == xt * power(xt, 0));
        assert(power(xt, 2) == xt * power(xt, 1));
        assert(value(last, env) == coeff * power(xt, deg as nat));
        assert(sum_values(ts, env) == sum_values(t, env) + value(last, env));
        assert(quadratic_fold(ts) == quadratic_step((c0, c1, c2, var), last));
        let ok_var = match tv {
            Some(v) => var_agrees(var, v),
            None => true,
        };
        assert(ok_var && deg <= 2);
        if tv is Some {
            assert(x2 == xt);
            if var is Some {
                assert(x == x2);
            }
        } else {
            assert(x2 == x);
            assert(deg == 0);
        }
        assert(c0 + c1 * x + c2 * (x * x) == c0 + c1 * x2 + c2 * (x2 * x2));
        if deg == 0 {
            assert(quadratic_fold(ts)->Some_0 == (c0 + coeff, c1, c2, var2));
            assert(value(last, env) == coeff);
        } else if deg == 1 {
            assert(quadratic_fold(ts)->Some_0 == (c0, c1 + coeff, c2, var2));
            assert(value(last, env) == coeff * xt);
            assert((c1 + coeff) * x2 == c1 * x2 + coeff * x2) by (nonlinear_arith);
        } else {
            assert(quadratic_fold(ts)->Some_0 == (c0, c1, c2 + coeff, var2));
            assert(power(xt, 2) == xt * xt);
            assert(value(last, env) == coeff * (xt * xt));
            let sq = x2 * x2;
            assert((c2 + coeff) * sq == c2 * sq + coeff * sq) by (nonlinear_arith);
        }
    }
}

/// The value of the linear factor `l·v + e`.
proof fn lemma_linear_value(v: Seq<char>, l: int, e: int, env: spec_fn(ExprModel) -> int)
    requires
        spec_linear(v, l, e) is Some,
    ensures
        value(spec_linear(v, l, e)->Some_0, env) == l * env(ExprModel::Symbol(v)) + e,
{
    let lead = spec_mul(seq![int_model(l), ExprModel::Symbol(v)]);
    law_mul_keeps_value(seq![int_model(l), ExprModel::Symbol(v)], env);
    lemma_product_two(int_model(l), ExprModel::Symbol(v), env);
    if e != 0 {
        law_add_keeps_value(seq![lead, int_model(e)], env);
        lemma_sum_two(lead, int_model(e), env);
    }
}

/// `k·(l1·x + e1)·(l2·x + e2)` multiplied out.
proof fn lemma_product_of_linears(k: int, l1: int, e1: int, l2: int, e2: int, x: int)
    ensures
        k * (l1 * x + e1) * (l2 * x + e2) == (k * (l1 * l2)) * (x * x) + (k * (l1 * e2 + l2 * e1)) * x + k
            * (e1 * e2),
{
    let f1 = l1 * x + e1;
    let f2 = l2 * x + e2;
    let p = l1 * l2;
    let q = l1 * e2 + l2 * e1;
    let r = e1 * e2;
    let xx = x * x;
    let a1 = l1 * x;
    let b1 = l2 * x;
    assert(f1 * f2 == a1 * f2 + e1 * f2) by (nonlinear_arith)
        requires
            f1 == a1 + e1,
    ;
    assert(a1 * f2 == a1 * b1 + a1 * e2) by (nonlinear_arith)
        requires
            f2 == b1 + e2,
    ;
    assert(e1 * f2 == e1 * b1 + e1 * e2) by (nonlinear_arith)
        requires
            f2 == b1 + e2,
    ;
    assert(a1 * b1 == p * xx) by (nonlinear_arith)
        requires
            a1 == l1 * x,
            b1 == l2 * x,
            p == l1 * l2,
            xx == x * x,
    ;
    assert(a1 * e2 == (l1 * e2) * x) by (nonlinear_arith)
        requires
            a1 == l1 * x,
    ;
    assert(e1 * b1 == (l2 * e1) * x) by (nonlinear_arith)
        requires
            b1 == l2 * x,
    ;
    assert((l1 * e2) * x + (l2 * e1) * x == q * x) by (nonlinear_arith)
        requires
            q == l1 * e2 + l2 * e1,
    ;
    assert(f1 * f2 == p * xx + q * x + r);
    assert(k * f1 * f2 == k * (f1 * f2)) by (nonlinear_arith);
    assert(k * (p * xx + q * x + r) == (k * p) * xx + (k * q) * x + k * r) by (nonlinear_arith);
}

/// A quadratic factorization never changes the value: whenever quadratic
/// factoring of the terms succeeds, the product it returns has, for every
/// assignment of integers to the atoms, the value of the sum of the terms.
pub proof fn law_quadratic_factoring_keeps_value(ts: Seq<ExprModel>, env: spec_fn(ExprModel) -> int)
    ensures
        match spec_try_quadratic(ts) {
            Some(p) => value(p, env) == value(ExprModel::Add(ts), env),
            None => true,
        },
{
    if let Some(p) = spec_try_quadratic(ts) {
        let (v, k, l1, e1, l2, e2) = spec_quadratic_factorization(ts)->Some_0;
        let (v0, a, b, c) = spec_parse_quadratic(ts)->Some_0;
        lemma_quadratic_fold_value(ts, env);
        let x = env(ExprModel::Symbol(v));
        assert(sum_values(ts, env) == c + b * x + a * (x * x));
        let f1 = spec_linear(v, l1, e1)->Some_0;
        let f2 = spec_linear(v, l2, e2)->Some_0;
        lemma_linear_value(v, l1, e1, env);
        lemma_linear_value(v, l2, e2, env);
        lemma_product_of_linears(k, l1, e1, l2, e2, x);
        if k == 1 {
            law_mul_keeps_value(seq![f1, f2], env);
            lemma_product_two(f1, f2, env);
            assert(value(p, env) == 1 * (l1 * x + e1) * (l2 * x + e2)) by (nonlinear_arith)
                requires
                    value(p, env) == value(f1, env) * value(f2, env),
                    value(f1, env) == l1 * x + e1,
                    value(f2, env) == l2 * x + e2,
            ;
        } else {
            law_mul_keeps_value(seq![int_model(k), f1, f2], env);
            lemma_product_three(int_model(k), f1, f2, env);
        }
    }
}

/// A quadratic whose discriminant `b² − 4ac` is not the square of an integer
/// (a negative one included) has no rational roots, and quadratic factoring
/// declines it.
pub proof fn law_irreducible_quadratic_declines(ts: Seq<ExprModel>)
    requires
        spec_parse_quadratic(ts) is Some,
        ({
            let (v, a, b, c) = spec_parse_quadratic(ts)->Some_0;
            forall|r: int| #[trigger] (r * r) != b * b - 4 * a * c
        }),
    ensures
        spec_try_quadratic(ts) is None,
{
    let (v, a, b, c) = spec_parse_quadratic(ts)->Some_0;
    let disc = b * b - 4 * a * c;
    let r = floor_sqrt(disc);
    assert(r * r != disc);
}

/// A linear factor with a non-zero leading coefficient is not an integer.
proof fn lemma_linear_not_constant(v: Seq<char>, l: int, e: int)
    requires
        l != 0,
        spec_linear(v, l, e) is Some,
    ensures
        int_value(spec_linear(v, l, e)->Some_0) is None,
{
    let ts = seq![int_model(l), ExprModel::Symbol(v)];
    assert(prod_consts(Seq::<ExprModel>::empty()) == 1);
    assert(sum_consts(Seq::<ExprModel>::empty()) == 0);
    assert(non_consts(Seq::<ExprModel>::empty()) == Seq::<ExprModel>::empty());
    assert(seq![int_model(l)].last() == int_model(l));
    assert(ts.drop_last() =~= seq![int_model(l)]);
    assert(seq![int_model(l)].drop_last() =~= Seq::<ExprModel>::empty());
    assert(prod_consts(seq![int_model(l)]) == l);
    assert(prod_consts(ts) == l);
    assert(non_consts(seq![int_model(l)]) =~= Seq::<ExprModel>::empty());
    assert(non_consts(ts) =~= seq![ExprModel::Symbol(v)]);
    let lead = spec_mul(ts);
    assert(int_value(lead) is None);
    if e != 0 {
        let us = seq![lead, int_model(e)];
        assert(seq![lead].last() == lead);
        assert(us.drop_last() =~= seq![lead]);
        assert(seq![lead].drop_last() =~= Seq::<ExprModel>::empty());
        assert(non_consts(seq![lead]) =~= seq![lead]);
        assert(non_consts(us) =~= seq![lead]);
        assert(sum_consts(seq![lead]) == 0);
        assert(sum_consts(us) == e);
    }
}

/// A successful quadratic factorization is a product.
pub proof fn law_quadratic_factoring_is_product(ts: Seq<ExprModel>)
    ensures
        match spec_try_quadratic(ts) {
            Some(p) => p is Mul,
            None => true,
        },
{
    if let Some(p) = spec_try_quadratic(ts) {
        let (v, k, l1, e1, l2, e2) = spec_quadratic_factorization(ts)->Some_0;
        let f1 = spec_linear(v, l1, e1)->Some_0;
        let f2 = spec_linear(v, l2, e2)->Some_0;
        assert(l1 * l2 != 0);
        assert(l1 != 0 && l2 != 0) by {
            if l1 == 0 {
                assert(l1 * l2 == 0);
            }
            if l2 == 0 {
                assert(l1 * l2 == 0);
            }
        }
        lemma_linear_not_constant(v, l1, e1);
        lemma_linear_not_constant(v, l2, e2);
        let two = seq![f1, f2];
        assert(prod_consts(Seq::<ExprModel>::empty()) == 1);
        assert(non_consts(Seq::<ExprModel>::empty()) == Seq::<ExprModel>::empty());
        assert(seq![f1].last() == f1);
        assert(two.drop_last() =~= seq![f1]);
        assert(seq![f1].drop_last() =~= Seq::<ExprModel>::empty());
        assert(non_consts(seq![f1]) =~= seq![f1]);
        assert(non_consts(two) =~= two);
        assert(prod_consts(seq![f1]) == 1);
        assert(prod_consts(two) == 1);
        if k != 1 {
            let (v0, a, b, c) = spec_parse_quadratic(ts)->Some_0;
            assert(k * (l1 * l2) == a);
            assert(k != 0) by {
                if k == 0 {
                    assert(k * (l1 * l2) == 0);
                }
            }
            let three = seq![int_model(k), f1, f2];
            assert(seq![int_model(k)].last() == int_model(k));
            assert(three.drop_last() =~= seq![int_model(k), f1]);
            assert(seq![int_model(k), f1].drop_last() =~= seq![int_model(k)]);
            assert(seq![int_model(k)].drop_last() =~= Seq::<ExprModel>::empty());
            assert(non_consts(seq![int_model(k)]) =~= Seq::<ExprModel>::empty());
            assert(non_consts(seq![int_model(k), f1]) =~= seq![f1]);
            assert(non_consts(three) =~= two);
            assert(prod_consts(seq![int_model(k)]) == k);
            assert(prod_consts(seq![int_model(k), f1]) == k);
            assert(prod_consts(three) == k);
        }
    }
}

/// A perfect square trinomial factors into a square of the same value: for
/// every assignment of integers to the atoms, the square has the value of the
/// sum of the terms.
pub proof fn law_perfect_square_keeps_value(ts: Seq<ExprModel>, env: spec_fn(ExprModel) -> int)
    ensures
        match spec_perfect_square(ts) {
            Some(sq) => sq is Pow && value(sq, env) == value(ExprModel::Add(ts), env),
            None => true,
        },
{
    if let Some(sq) = spec_perfect_square(ts) {
        let (v, a, b, c) = spec_parse_quadratic(ts)->Some_0;
        lemma_quadratic_fold_value(ts, env);
        let x = env(ExprModel::Symbol(v));
        let p = floor_sqrt(a);
        let q = floor_sqrt(c);
        let e = if b == 2 * (p * q) { q } else { -q };
        let l = spec_linear(v, p, e)->Some_0;
        lemma_linear_value(v, p, e, env);
        law_pow_keeps_value(l, int_model(2), env);
        let vl = value(l, env);
        assert(power(vl, 2) == vl * power(vl, 1));
        assert(power(vl, 1) == vl * power(vl, 0));
        assert(e * e == c) by (nonlinear_arith)
            requires
                e == q || e == -q,
                q * q == c,
        ;
        assert(p * (-q) == -(p * q)) by (nonlinear_arith);
        assert(b == 2 * (p * e));
        assert((p * x + e) * (p * x + e) == (p * p) * (x * x) + (2 * (p * e)) * x + e * e) by (nonlinear_arith);
    }
}

/// The difference-of-squares product `(a + b)(a − b)` has the value `a² − b²`
/// for every assignment of integers to the atoms.
pub proof fn law_difference_of_squares(a: ExprModel, b: ExprModel, env: spec_fn(ExprModel) -> int)
    ensures
        value(
            spec_mul(
                seq![
                    spec_add(seq![a, b]),
                    spec_add(seq![a, spec_mul(seq![int_model(-1), b])]),
                ],
            ),
            env,
        ) == value(a, env) * value(a, env) - value(b, env) * value(b, env),
{
    let nb = spec_mul(seq![int_model(-1), b]);
    law_mul_keeps_value(seq![int_model(-1), b], env);
    lemma_product_two(int_model(-1), b, env);
    let s = spec_add(seq![a, b]);
    let d = spec_add(seq![a, nb]);
    law_add_keeps_value(seq![a, b], env);
    lemma_sum_two(a, b, env);
    law_add_keeps_value(seq![a, nb], env);
    lemma_sum_two(a, nb, env);
    law_mul_keeps_value(seq![s, d], env);
    lemma_product_two(s, d, env);
    let va = value(a, env);
    let vb = value(b, env);
    assert((va + vb) * (va + (-1) * vb) == va * va - vb * vb) by (nonlinear_arith);
}

impl Expression {
    /// Try to factor a single-variable integer quadratic `a·v² + b·v + c` into
    /// linear factors over ℤ. Returns `None` when the terms are not such a
    /// quadratic, when the discriminant is negative or not a perfect square, or
    /// when the constructed factorization fails its arithmetic re-check.
    pub fn try_quadratic_factoring(&self, terms: &[Expression]) -> (r: Option<Expression>)
        ensures
            r is Some <==> spec_try_quadratic(view_seq(terms@)) is Some,
            r matches Some(p) ==> spec_try_quadratic(view_seq(terms@)) == Some(p@),
    {
        let ghost ts = view_seq(terms@);
        let (var, a, b, c) = match parse_integer_quadratic(terms) {
            Some(q) => q,
            None => {
                return None;
            },
        };
        let bb = match b.checked_mul(b) {
            Some(x) => x,
            None => {
                return None;
            },
        };
        let fa = match 4i128.checked_mul(a) {
            Some(x) => x,
            None => {
                return None;
            },
        };
        let fac = match fa.checked_mul(c) {
            Some(x) => x,
            None => {
                return None;
            },
        };
        let disc = match bb.checked_sub(fac) {
            Some(x) => x,
            None => {
                return None;
            },
        };
        if disc < 0 {
            return None;
        }
        let root = isqrt(disc);
        proof {
            lemma_floor_sqrt_unique(disc as int, root as int, floor_sqrt(disc as int));
        }
        let rr = match root.checked_mul(root) {
            Some(x) => x,
            None => {
                return None;
            },
        };
        if rr != disc {
            return None;
        }
        let two_a = match 2i128.checked_mul(a) {
            Some(x) => x,
            None => {
                return None;
            },
        };
        proof {
            lemma_square_bound(b as int);
            lemma_square_bound(root as int);
        }
        let (n1, d1) = match reduced_fraction(-b + root, two_a) {
            Some(f) => f,
            None => {
                return None;
            },
        };
        let (n2, d2) = match reduced_fraction(-b - root, two_a) {
            Some(f) => f,
            None => {
                return None;
            },
        };
        let (l1, e1) = (d1, -n1);
        let (l2, e2) = (d2, -n2);
        let ll = match l1.checked_mul(l2) {
            Some(x) => x,
            None => {
                return None;
            },
        };
        if ll == 0 {
            return None;
        }
        let k = match exact_quotient(a, ll) {
            Some(k) => k,
            None => {
                return None;
            },
        };
        let a_chk = match k.checked_mul(ll) {
            Some(x) => x,
            None => {
                return None;
            },
        };
        let p1 = match l1.checked_mul(e2) {
            Some(x) => x,
            None => {
                return None;
            },
        };
        let p2 = match l2.checked_mul(e1) {
            Some(x) => x,
            None => {
                return None;
            },
        };
        let s12 = match p1.checked_add(p2) {
            Some(x) => x,
            None => {
                return None;
            },
        };
        let b_chk = match k.checked_mul(s12) {
            Some(x) => x,
            None => {
                return None;
            },
        };
        let e12 = match e1.checked_mul(e2) {
            Some(x) => x,
            None => {
                return None;
            },
        };
        let c_chk = match k.checked_mul(e12) {
            Some(x) => x,
            None => {
                return None;
            },
        };
        if a_chk != a || b_chk != b || c_chk != c {
            return None;
        }
        let f1 = match build_linear(&var, l1, e1) {
            Some(x) => x,
            None => {
                return None;
            },
        };
        let f2 = match build_linear(&var, l2, e2) {
            Some(x) => x,
            None => {
                return None;
            },
        };
        let ghost m1 = f1@;
        let ghost m2 = f2@;
        if k == 1 {
            let fs = vec![f1, f2];
            proof {
                lemma_view_seq(fs@);
                assert(view_seq(fs@) =~= seq![m1, m2]);
            }
            Some(Expression::mul(fs))
        } else {
            let kc = match int_expr(k) {
                Some(x) => x,
                None => {
                    return None;
                },
            };
            let fs = vec![kc, f1, f2];
            proof {
                lemma_view_seq(fs@);
                assert(view_seq(fs@) =~= seq![int_model(k as int), m1, m2]);
            }
            Some(Expression::mul(fs))
        }
    }

    /// Factor perfect square trinomials `a² + 2ab + b² = (a + b)²`, for three
    /// terms forming an integer quadratic in one variable (see
    /// [`spec_perfect_square`]).
    pub fn factor_perfect_square(&self, terms: &[Expression]) -> (r: Option<Expression>)
        ensures
            r is Some <==> spec_perfect_square(view_seq(terms@)) is Some,
            r matches Some(x) ==> spec_perfect_square(view_seq(terms@)) == Some(x@),
    {
        if terms.len() != 3 {
            proof {
                lemma_view_seq(terms@);
            }
            return None;
        }
        proof {
            lemma_view_seq(terms@);
        }
        let (var, a, b, c) = match parse_integer_quadratic(terms) {
            Some(q) => q,
            None => {
                return None;
            },
        };
        if a <= 0 || c < 0 {
            return None;
        }
        let p = isqrt(a);
        let q = isqrt(c);
        proof {
            lemma_floor_sqrt_unique(a as int, p as int, floor_sqrt(a as int));
            lemma_floor_sqrt_unique(c as int, q as int, floor_sqrt(c as int));
        }
        if p * p != a || q * q != c {
            return None;
        }
        let pq = match p.checked_mul(q) {
            Some(x) => x,
            None => {
                proof {
                    assert(p * q > i128::MAX);
                }
                return None;
            },
        };
        let plus = pq.checked_mul(2);
        let minus = (0 - pq).checked_mul(2);
        let e: i128 = if plus == Some(b) {
            q
        } else if minus == Some(b) {
            proof {
                assert(b != 2 * (p * q));
            }
            -q
        } else {
            return None;
        };
        match build_linear(&var, p, e) {
            Some(l) => Some(Expression::pow(l, Expression::integer(2))),
            None => None,
        }
    }

    /// Factor difference of squares: `a² − b² = (a + b)(a − b)`.
    pub fn factor_difference_of_squares(&self, a: &Expression, b: &Expression) -> (r: Expression)
        ensures
            r@ == spec_mul(
                seq![
                    spec_add(seq![a@, b@]),
                    spec_add(seq![a@, spec_mul(seq![int_model(-1), b@])]),
                ],
            ),
    {
        let neg = vec![Expression::integer(-1), b.clone()];
        proof {
            lemma_view_seq(neg@);
            assert(view_seq(neg@) =~= seq![int_model(-1), b@]);
        }
        let neg_b = Expression::mul(neg);
        let ghost nb = neg_b@;
        let sum_terms = vec![a.clone(), b.clone()];
        let diff_terms = vec![a.clone(), neg_b];
        proof {
            lemma_view_seq(sum_terms@);
            lemma_view_seq(diff_terms@);
            assert(view_seq(sum_terms@) =~= seq![a@, b@]);
            assert(view_seq(diff_terms@) =~= seq![a@, nb]);
        }
        let sum = Expression::add(sum_terms);
        let diff = Expression::add(diff_terms);
        let ghost sm = sum@;
        let ghost dm = diff@;
        let both = vec![sum, diff];
        proof {
            lemma_view_seq(both@);
            assert(view_seq(both@) =~= seq![sm, dm]);
        }
        Expression::mul(both)
    }
}

} // verus!
