//! The common factor of a list of terms divides each of them.

use crate::arith::{abs, divides, gcd, lemma_gcd_divides, power};
use crate::expr::{int_model, number_model_of, ExprModel};
use crate::factor::common::{
    common_factor_list, drop_integers, first_index_of, first_integer, is_machine_integer,
    lemma_first_index_of, lemma_product_remove, match_members, spec_common_factor,
    spec_extract_factors, spec_intersect,
};
use crate::number::NumberModel;
use crate::value::{law_mul_keeps_value, lemma_product_prepend, product_values, value};
use vstd::prelude::*;

verus! {

/// The product of the members of `s` that are not machine integers.
spec fn rest_product(s: Seq<ExprModel>, env: spec_fn(ExprModel) -> int) -> int {
    product_values(drop_integers(s), env)
}

/// What a member adds to `rest_product`: its value, or one for a machine integer.
spec fn rest_weight(x: ExprModel, env: spec_fn(ExprModel) -> int) -> int {
    if is_machine_integer(x) {
        1
    } else {
        value(x, env)
    }
}

/// Divisibility is transitive.
proof fn lemma_divides_trans(a: int, b: int, c: int)
    requires
        divides(a, b),
        divides(b, c),
    ensures
        divides(a, c),
{
    let k1 = choose|k: int| #[trigger] (a * k) == b;
    let k2 = choose|k: int| #[trigger] (b * k) == c;
    assert(a * (k1 * k2) == c) by (nonlinear_arith)
        requires
            a * k1 == b,
            b * k2 == c,
    ;
}

/// Everything divides itself.
proof fn lemma_divides_refl(a: int)
    ensures
        divides(a, a),
{
    assert(a * 1 == a);
}

/// One divides everything.
proof fn lemma_one_divides(a: int)
    ensures
        divides(1, a),
{
    assert(1 * a == a);
}

/// Appending a member multiplies the product by its value.
proof fn lemma_product_push(s: Seq<ExprModel>, x: ExprModel, env: spec_fn(ExprModel) -> int)
    ensures
        product_values(s.push(x), env) == product_values(s, env) * value(x, env),
{
    assert(s.push(x).subrange(0, s.len() as int) =~= s);
}

/// Appending a member multiplies `rest_product` by its weight.
proof fn lemma_rest_push(s: Seq<ExprModel>, x: ExprModel, env: spec_fn(ExprModel) -> int)
    ensures
        rest_product(s.push(x), env) == rest_product(s, env) * rest_weight(x, env),
{
    assert(s.push(x).drop_last() =~= s);
    if !is_machine_integer(x) {
        lemma_product_push(drop_integers(s), x, env);
    }
}

/// The product of one member is its value.
proof fn lemma_product_single(x: ExprModel, env: spec_fn(ExprModel) -> int)
    ensures
        product_values(seq![x], env) == value(x, env),
{
    assert(seq![x].subrange(0, 0) =~= Seq::<ExprModel>::empty());
    assert(product_values(Seq::<ExprModel>::empty(), env) == 1);
    assert(seq![x][0] == x);
}

/// Removing a member divides `rest_product` by its weight.
proof fn lemma_rest_remove(s: Seq<ExprModel>, p: int, env: spec_fn(ExprModel) -> int)
    requires
        0 <= p < s.len(),
    ensures
        rest_product(s, env) == rest_product(s.remove(p), env) * rest_weight(s[p], env),
    decreases s.len(),
{
    let d = s.drop_last();
    assert(d.push(s.last()) =~= s);
    lemma_rest_push(d, s.last(), env);
    if p == s.len() - 1 {
        assert(s.remove(p) =~= d);
    } else {
        lemma_rest_remove(d, p, env);
        assert(d.remove(p).push(s.last()) =~= s.remove(p));
        lemma_rest_push(d.remove(p), s.last(), env);
        let a = rest_product(d.remove(p), env);
        let b = rest_weight(s[p], env);
        let c = rest_weight(s.last(), env);
        assert((a * b) * c == (a * c) * b) by (nonlinear_arith);
    }
}

/// `rest_product` divides the whole product.
proof fn lemma_rest_divides(s: Seq<ExprModel>, env: spec_fn(ExprModel) -> int)
    ensures
        divides(rest_product(s, env), product_values(s, env)),
    decreases s.len(),
{
    if s.len() == 0 {
        lemma_divides_refl(1);
    } else {
        let d = s.drop_last();
        let x = s.last();
        assert(d.push(x) =~= s);
        lemma_rest_divides(d, env);
        lemma_rest_push(d, x, env);
        lemma_product_push(d, x, env);
        let q = rest_product(d, env);
        let k = choose|k: int| #[trigger] (q * k) == product_values(d, env);
        let v = value(x, env);
        if is_machine_integer(x) {
            assert(q * (k * v) == (q * k) * v) by (nonlinear_arith);
            assert(rest_product(s, env) * (k * v) == product_values(s, env));
        } else {
            assert((q * v) * k == (q * k) * v) by (nonlinear_arith);
            assert(rest_product(s, env) * k == product_values(s, env));
        }
    }
}

/// Dropping the machine integers of a list with a member in front.
proof fn lemma_drop_integers_prepend(x: ExprModel, t: Seq<ExprModel>)
    ensures
        drop_integers(seq![x] + t) == if is_machine_integer(x) {
            drop_integers(t)
        } else {
            seq![x] + drop_integers(t)
        },
    decreases t.len(),
{
    let s = seq![x] + t;
    if t.len() == 0 {
        assert(s.drop_last() =~= Seq::<ExprModel>::empty());
        assert(t =~= Seq::<ExprModel>::empty());
        assert(s.last() == x);
        assert(drop_integers(Seq::<ExprModel>::empty()) == Seq::<ExprModel>::empty());
        assert(seq![x] + Seq::<ExprModel>::empty() =~= seq![x]);
        assert(Seq::<ExprModel>::empty().push(x) =~= seq![x]);
    } else {
        let d = t.drop_last();
        assert(s.drop_last() =~= seq![x] + d);
        assert(s.last() == t.last());
        assert(t.drop_last() == d);
        lemma_drop_integers_prepend(x, d);
        if !is_machine_integer(x) {
            assert((seq![x] + drop_integers(d)).push(t.last()) =~= seq![x] + drop_integers(d).push(
                t.last(),
            ));
        }
    }
}

/// With a first machine integer `n`, `rest_product · n` divides the product.
proof fn lemma_first_integer_divides(s: Seq<ExprModel>, env: spec_fn(ExprModel) -> int)
    requires
        first_integer(s) is Some,
    ensures
        divides(rest_product(s, env) * first_integer(s)->Some_0, product_values(s, env)),
    decreases s.len(),
{
    let x = s[0];
    let t = s.drop_first();
    assert(seq![x] + t =~= s);
    lemma_drop_integers_prepend(x, t);
    lemma_product_prepend(x, t, env);
    let n = first_integer(s)->Some_0;
    let v = value(x, env);
    let pt = product_values(t, env);
    let qt = rest_product(t, env);
    match x {
        ExprModel::Number(NumberModel::Integer(m)) => {
            lemma_rest_divides(t, env);
            let k = choose|k: int| #[trigger] (qt * k) == pt;
            assert(v == n);
            assert((qt * n) * k == n * (qt * k)) by (nonlinear_arith);
            assert(rest_product(s, env) * n * k == product_values(s, env));
        },
        _ => {
            lemma_first_integer_divides(t, env);
            assert(first_integer(t) == Some(n));
            let k = choose|k: int| #[trigger] ((qt * n) * k) == pt;
            lemma_product_prepend(x, drop_integers(t), env);
            assert(rest_product(s, env) == v * qt);
            assert(((v * qt) * n) * k == v * ((qt * n) * k)) by (nonlinear_arith);
            assert((rest_product(s, env) * n) * k == product_values(s, env));
        },
    }
}

/// Matching `s1` against `s2`: the matched members and the rest of `s2`
/// multiply back to `s2`, and the matched members divide `s1`.
proof fn lemma_match_members(s1: Seq<ExprModel>, s2: Seq<ExprModel>, env: spec_fn(ExprModel) -> int)
    ensures
        product_values(s2, env) == product_values(match_members(s1, s2).0, env) * product_values(
            match_members(s1, s2).1,
            env,
        ),
        rest_product(s2, env) == rest_product(match_members(s1, s2).0, env) * rest_product(
            match_members(s1, s2).1,
            env,
        ),
        divides(product_values(match_members(s1, s2).0, env), product_values(s1, env)),
        divides(rest_product(match_members(s1, s2).0, env), rest_product(s1, env)),
    decreases s1.len(),
{
    if s1.len() == 0 {
        let e = Seq::<ExprModel>::empty();
        assert(product_values(e, env) == 1);
        assert(drop_integers(e) == e);
        assert(rest_product(e, env) == 1);
        assert(match_members(s1, s2) == (e, s2));
        assert(rest_product(s2, env) == 1 * rest_product(s2, env));
        lemma_one_divides(product_values(s1, env));
        lemma_one_divides(rest_product(s1, env));
    } else {
        let d = s1.drop_last();
        let x = s1.last();
        assert(d.push(x) =~= s1);
        lemma_match_members(d, s2, env);
        let (c0, r0) = match_members(d, s2);
        let (c, r) = match_members(s1, s2);
        lemma_product_push(d, x, env);
        lemma_rest_push(d, x, env);
        let pc0 = product_values(c0, env);
        let qc0 = rest_product(c0, env);
        let k = choose|k: int| #[trigger] (pc0 * k) == product_values(d, env);
        let j = choose|k: int| #[trigger] (qc0 * k) == rest_product(d, env);
        let v = value(x, env);
        let w = rest_weight(x, env);
        match first_index_of(r0, x) {
            Some(i) => {
                lemma_first_index_of(r0, x);
                lemma_product_remove(r0, i, env);
                lemma_rest_remove(r0, i, env);
                lemma_product_push(c0, x, env);
                lemma_rest_push(c0, x, env);
                let pr = product_values(r, env);
                let qr = rest_product(r, env);
                let qc = rest_product(c0, env);
                assert(pc0 * (pr * v) == (pc0 * v) * pr) by (nonlinear_arith);
                assert(qc * (qr * w) == (qc * w) * qr) by (nonlinear_arith);
                assert((pc0 * k) * v == (pc0 * v) * k) by (nonlinear_arith);
                assert((qc0 * j) * w == (qc0 * w) * j) by (nonlinear_arith);
                assert(rest_product(r0, env) == qr * w);
                assert(rest_product(c, env) == qc * w);
                assert(rest_product(s2, env) == qc * rest_product(r0, env));
                assert(product_values(c, env) * k == product_values(s1, env));
                assert(rest_product(c, env) * j == rest_product(s1, env));
            },
            None => {
                assert((pc0 * k) * v == pc0 * (k * v)) by (nonlinear_arith);
                assert((qc0 * j) * w == qc0 * (j * w)) by (nonlinear_arith);
                assert(product_values(c, env) * (k * v) == product_values(s1, env));
                assert(rest_product(c, env) * (j * w) == rest_product(s1, env));
            },
        }
    }
}

/// A divisor of `|x|` divides `x`.
proof fn lemma_divides_abs(d: int, x: int)
    requires
        divides(d, abs(x) as int),
    ensures
        divides(d, x),
{
    let k = choose|k: int| #[trigger] (d * k) == abs(x) as int;
    if x < 0 {
        assert(d * (-k) == -(d * k)) by (nonlinear_arith);
        assert(d * (-k) == x);
    } else {
        assert(d * k == x);
    }
}

/// `q · g` divides whatever `(q · j) · (g · m)` divides.
proof fn lemma_scaled_divides(q: int, j: int, g: int, m: int, y: int)
    requires
        divides((q * j) * (g * m), y),
    ensures
        divides(q * g, y),
{
    let k = choose|k: int| #[trigger] (((q * j) * (g * m)) * k) == y;
    assert((q * g) * (j * m * k) == ((q * j) * (g * m)) * k) by (nonlinear_arith);
}

/// The intersection of two factor lists divides the product of each.
proof fn lemma_intersect_divides(s1: Seq<ExprModel>, s2: Seq<ExprModel>, env: spec_fn(ExprModel) -> int)
    ensures
        divides(product_values(spec_intersect(s1, s2), env), product_values(s1, env)),
        divides(product_values(spec_intersect(s1, s2), env), product_values(s2, env)),
{
    lemma_match_members(s1, s2, env);
    let (c, r) = match_members(s1, s2);
    let pc = product_values(c, env);
    let pr = product_values(r, env);
    assert(pc * pr == product_values(s2, env));
    match (first_integer(s1), first_integer(s2)) {
        (Some(n1), Some(n2)) => {
            let g = gcd(abs(n1), abs(n2)) as int;
            if g != 1 {
                let gm = number_model_of(g);
                lemma_product_push(drop_integers(c), gm, env);
                assert(value(gm, env) == g);
                let qc = rest_product(c, env);
                assert(product_values(spec_intersect(s1, s2), env) == qc * g);
                lemma_gcd_divides(abs(n1), abs(n2));
                lemma_divides_abs(g, n1);
                lemma_divides_abs(g, n2);
                let m1 = choose|k: int| #[trigger] (g * k) == n1;
                let m2 = choose|k: int| #[trigger] (g * k) == n2;
                let j1 = choose|k: int| #[trigger] (qc * k) == rest_product(s1, env);
                lemma_first_integer_divides(s1, env);
                lemma_first_integer_divides(s2, env);
                assert(rest_product(s1, env) * n1 == (qc * j1) * (g * m1));
                lemma_scaled_divides(qc, j1, g, m1, product_values(s1, env));
                let j2 = rest_product(r, env);
                assert(rest_product(s2, env) * n2 == (qc * j2) * (g * m2));
                lemma_scaled_divides(qc, j2, g, m2, product_values(s2, env));
            } else {
                assert(pc * pr == product_values(s2, env));
            }
        },
        _ => {},
    }
}

/// The term is no power, or a power whose exponent is an integer of at least one.
pub open spec fn exponent_at_least_one(m: ExprModel) -> bool {
    match m {
        ExprModel::Pow(_, e) => match *e {
            ExprModel::Number(NumberModel::Integer(k)) => k >= 1,
            ExprModel::Number(NumberModel::BigInteger(k)) => k >= 1,
            _ => false,
        },
        _ => true,
    }
}

/// The factors read off a term divide its value.
proof fn lemma_extract_divides(t: ExprModel, env: spec_fn(ExprModel) -> int)
    requires
        exponent_at_least_one(t),
    ensures
        divides(product_values(spec_extract_factors(t), env), value(t, env)),
{
    match t {
        ExprModel::Number(NumberModel::Integer(n)) => {
            if n != 0 && n != 1 {
                lemma_product_single(t, env);
                lemma_divides_refl(value(t, env));
            } else {
                assert(product_values(Seq::<ExprModel>::empty(), env) == 1);
                lemma_one_divides(value(t, env));
            }
        },
        ExprModel::Mul(fs) => {
            lemma_divides_refl(value(t, env));
        },
        ExprModel::Pow(b, e) => {
            lemma_product_single(*b, env);
            let vb = value(*b, env);
            let k: int = match *e {
                ExprModel::Number(NumberModel::Integer(k)) => k,
                ExprModel::Number(NumberModel::BigInteger(k)) => k,
                _ => 1,
            };
            assert(value(t, env) == power(vb, k as nat));
            assert(power(vb, k as nat) == vb * power(vb, (k - 1) as nat));
            assert(vb * power(vb, (k - 1) as nat) == value(t, env));
        },
        _ => {
            lemma_product_single(t, env);
            lemma_divides_refl(value(t, env));
        },
    }
}

/// The intersected factor list divides the factors of every term.
proof fn lemma_common_list_divides(ts: Seq<ExprModel>, env: spec_fn(ExprModel) -> int, j: int)
    requires
        0 <= j < ts.len(),
    ensures
        divides(
            product_values(common_factor_list(ts), env),
            product_values(spec_extract_factors(ts[j]), env),
        ),
    decreases ts.len(),
{
    if ts.len() == 1 {
        lemma_divides_refl(product_values(spec_extract_factors(ts[0]), env));
    } else {
        let d = ts.drop_last();
        lemma_intersect_divides(common_factor_list(d), spec_extract_factors(ts.last()), env);
        if j < ts.len() - 1 {
            lemma_common_list_divides(d, env, j);
            assert(d[j] == ts[j]);
            lemma_divides_trans(
                product_values(common_factor_list(ts), env),
                product_values(common_factor_list(d), env),
                product_values(spec_extract_factors(ts[j]), env),
            );
        }
    }
}

/// The common factor of a list of terms divides every term: for each
/// assignment of integers to the atoms, the value of the common factor divides
/// the value of each term. A power among the terms must have an integer
/// exponent of at least one (a power of a base with exponent zero, negative or
/// not an integer is not a multiple of its base).
pub proof fn law_common_factor_divides(ts: Seq<ExprModel>, env: spec_fn(ExprModel) -> int)
    requires
        forall|i: int| 0 <= i < ts.len() ==> exponent_at_least_one(#[trigger] ts[i]),
    ensures
        forall|i: int|
            0 <= i < ts.len() ==> divides(value(spec_common_factor(ts), env), #[trigger] value(ts[i], env)),
{
    assert forall|i: int| 0 <= i < ts.len() implies divides(
        value(spec_common_factor(ts), env),
        #[trigger] value(ts[i], env),
    ) by {
        let c = common_factor_list(ts);
        if c.len() == 0 {
            assert(value(int_model(1), env) == 1);
            lemma_one_divides(value(ts[i], env));
        } else {
            law_mul_keeps_value(c, env);
            lemma_common_list_divides(ts, env, i);
            lemma_extract_divides(ts[i], env);
            lemma_divides_trans(
                product_values(c, env),
                product_values(spec_extract_factors(ts[i]), env),
                value(ts[i], env),
            );
        }
    }
}

} // verus!
