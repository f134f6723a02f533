//! The integer value of an expression under an assignment of integers to its
//! atoms, and the laws that the canonical constructors keep that value.

use crate::arith::power;
use crate::construct::{
    collapse_prod, collapse_sum, int_value, non_consts, prod_consts, spec_add, spec_mul, spec_pow,
    sum_consts,
};
use crate::expr::{int_model, number_model_of, ExprModel};
use crate::number::NumberModel;
use vstd::prelude::*;

verus! {

/// The value of an expression when every atom `a` (a variable, a function
/// application, a non-integer number, a power that is not a natural power, or
/// any other expression that is not a sum, product or integer) has the value
/// `env(a)`: integers are themselves, sums add, products multiply, and `b^k`
/// for an integer `k ≥ 0` is the `k`-th power.
pub open spec fn value(m: ExprModel, env: spec_fn(ExprModel) -> int) -> int
    decreases m, 1nat,
{
    match m {
        ExprModel::Number(NumberModel::Integer(i)) => i,
        ExprModel::Number(NumberModel::BigInteger(v)) => v,
        ExprModel::Add(ts) => sum_values(ts, env),
        ExprModel::Mul(ts) => product_values(ts, env),
        ExprModel::Pow(b, e) => match *e {
            ExprModel::Number(NumberModel::Integer(k)) => if k >= 0 {
                power(value(*b, env), k as nat)
            } else {
                env(m)
            },
            ExprModel::Number(NumberModel::BigInteger(k)) => if k >= 0 {
                power(value(*b, env), k as nat)
            } else {
                env(m)
            },
            _ => env(m),
        },
        _ => env(m),
    }
}

/// The sum of the values of `ts`.
pub open spec fn sum_values(ts: Seq<ExprModel>, env: spec_fn(ExprModel) -> int) -> int
    decreases ts, 0nat,
{
    if ts.len() == 0 {
        0
    } else {
        sum_values(ts.subrange(0, ts.len() - 1), env) + value(ts[ts.len() - 1], env)
    }
}

/// The product of the values of `ts`.
pub open spec fn product_values(ts: Seq<ExprModel>, env: spec_fn(ExprModel) -> int) -> int
    decreases ts, 0nat,
{
    if ts.len() == 0 {
        1
    } else {
        product_values(ts.subrange(0, ts.len() - 1), env) * value(ts[ts.len() - 1], env)
    }
}

/// `b^(e1 + e2) = b^e1 · b^e2`.
pub proof fn lemma_power_adds(b: int, e1: nat, e2: nat)
    ensures
        power(b, e1 + e2) == power(b, e1) * power(b, e2),
    decreases e2,
{
    if e2 > 0 {
        lemma_power_adds(b, e1, (e2 - 1) as nat);
        let p1 = power(b, e1);
        let p2 = power(b, (e2 - 1) as nat);
        assert(power(b, e1 + e2) == b * power(b, (e1 + e2 - 1) as nat));
        assert(b * (p1 * p2) == p1 * (b * p2)) by (nonlinear_arith);
    }
}

/// The value of an integer constant is the integer.
proof fn lemma_int_value(m: ExprModel, env: spec_fn(ExprModel) -> int)
    requires
        int_value(m) is Some,
    ensures
        value(m, env) == int_value(m)->Some_0,
{
}

/// Summing splits into the integer constants and the other terms.
pub proof fn lemma_sum_split(ts: Seq<ExprModel>, env: spec_fn(ExprModel) -> int)
    ensures
        sum_values(ts, env) == sum_values(non_consts(ts), env) + sum_consts(ts),
    decreases ts.len(),
{
    if ts.len() > 0 {
        let t = ts.drop_last();
        assert(ts.subrange(0, ts.len() - 1) =~= t);
        lemma_sum_split(t, env);
        let last = ts.last();
        if int_value(last) is Some {
            lemma_int_value(last, env);
        } else {
            let nc = non_consts(t).push(last);
            assert(nc.subrange(0, nc.len() - 1) =~= non_consts(t));
        }
    }
}

/// Multiplying splits into the integer constants and the other factors.
pub proof fn lemma_product_split(ts: Seq<ExprModel>, env: spec_fn(ExprModel) -> int)
    ensures
        product_values(ts, env) == product_values(non_consts(ts), env) * prod_consts(ts),
    decreases ts.len(),
{
    if ts.len() > 0 {
        let t = ts.drop_last();
        assert(ts.subrange(0, ts.len() - 1) =~= t);
        lemma_product_split(t, env);
        let last = ts.last();
        let pn = product_values(non_consts(t), env);
        let pc = prod_consts(t);
        let v = value(last, env);
        if int_value(last) is Some {
            lemma_int_value(last, env);
            assert((pn * pc) * v == pn * (pc * v)) by (nonlinear_arith);
        } else {
            let nc = non_consts(t).push(last);
            assert(nc.subrange(0, nc.len() - 1) =~= non_consts(t));
            assert((pn * pc) * v == (pn * v) * pc) by (nonlinear_arith);
        }
    }
}

/// Appending a term adds its value.
pub proof fn lemma_sum_push(ts: Seq<ExprModel>, x: ExprModel, env: spec_fn(ExprModel) -> int)
    ensures
        sum_values(ts.push(x), env) == sum_values(ts, env) + value(x, env),
{
    assert(ts.push(x).subrange(0, ts.len() as int) =~= ts);
}

/// A factor in front multiplies the product.
pub proof fn lemma_product_prepend(x: ExprModel, ts: Seq<ExprModel>, env: spec_fn(ExprModel) -> int)
    ensures
        product_values(seq![x] + ts, env) == value(x, env) * product_values(ts, env),
    decreases ts.len(),
{
    let s = seq![x] + ts;
    if ts.len() == 0 {
        assert(s.subrange(0, 0) =~= Seq::<ExprModel>::empty());
        assert(product_values(Seq::<ExprModel>::empty(), env) == 1);
        assert(s[0] == x);
    } else {
        let t = ts.subrange(0, ts.len() - 1);
        assert(s.subrange(0, s.len() - 1) =~= seq![x] + t);
        lemma_product_prepend(x, t, env);
        let a = value(x, env);
        let p = product_values(t, env);
        let l = value(ts[ts.len() - 1], env);
        assert((a * p) * l == a * (p * l)) by (nonlinear_arith);
    }
}

/// A collapsed sum has the sum of the values.
pub proof fn lemma_collapse_sum(s: Seq<ExprModel>, env: spec_fn(ExprModel) -> int)
    ensures
        value(collapse_sum(s), env) == sum_values(s, env),
{
    if s.len() == 1 {
        assert(s.subrange(0, 0) =~= Seq::<ExprModel>::empty());
        assert(sum_values(Seq::<ExprModel>::empty(), env) == 0);
    } else if s.len() == 0 {
        assert(sum_values(s, env) == 0);
    }
}

/// A collapsed product has the product of the values.
pub proof fn lemma_collapse_prod(s: Seq<ExprModel>, env: spec_fn(ExprModel) -> int)
    ensures
        value(collapse_prod(s), env) == product_values(s, env),
{
    if s.len() == 1 {
        assert(s.subrange(0, 0) =~= Seq::<ExprModel>::empty());
        assert(product_values(Seq::<ExprModel>::empty(), env) == 1);
    } else if s.len() == 0 {
        assert(product_values(s, env) == 1);
    }
}

/// The canonical sum has the value of the sum of its terms.
pub proof fn law_add_keeps_value(ts: Seq<ExprModel>, env: spec_fn(ExprModel) -> int)
    ensures
        value(spec_add(ts), env) == sum_values(ts, env),
{
    let c = sum_consts(ts);
    let rest = non_consts(ts);
    lemma_sum_split(ts, env);
    if c == 0 {
        lemma_collapse_sum(rest, env);
    } else {
        lemma_sum_push(rest, number_model_of(c), env);
        lemma_collapse_sum(rest.push(number_model_of(c)), env);
    }
}

/// The canonical product has the value of the product of its factors.
pub proof fn law_mul_keeps_value(ts: Seq<ExprModel>, env: spec_fn(ExprModel) -> int)
    ensures
        value(spec_mul(ts), env) == product_values(ts, env),
{
    let p = prod_consts(ts);
    let rest = non_consts(ts);
    lemma_product_split(ts, env);
    let pr = product_values(rest, env);
    if p == 0 {
        assert(pr * p == 0) by (nonlinear_arith)
            requires
                p == 0,
        ;
    } else if p == 1 {
        lemma_collapse_prod(rest, env);
    } else {
        lemma_product_prepend(number_model_of(p), rest, env);
        lemma_collapse_prod(seq![number_model_of(p)] + rest, env);
        assert(pr * p == p * pr) by (nonlinear_arith);
    }
}

/// The canonical power has the value of the power.
pub proof fn law_pow_keeps_value(base: ExprModel, exp: ExprModel, env: spec_fn(ExprModel) -> int)
    ensures
        value(spec_pow(base, exp), env) == value(ExprModel::Pow(Box::new(base), Box::new(exp)), env),
{
    let b = value(base, env);
    if exp == int_model(1) {
        assert(power(b, 1) == b * power(b, 0));
    }
}

/// The value of a sum of two terms.
pub proof fn lemma_sum_two(a: ExprModel, b: ExprModel, env: spec_fn(ExprModel) -> int)
    ensures
        sum_values(seq![a, b], env) == value(a, env) + value(b, env),
{
    let s = seq![a, b];
    assert(s.subrange(0, 1) =~= seq![a]);
    assert(seq![a].subrange(0, 0) =~= Seq::<ExprModel>::empty());
    assert(sum_values(Seq::<ExprModel>::empty(), env) == 0);
    assert(sum_values(seq![a], env) == value(a, env));
}

/// The value of a product of two factors.
pub proof fn lemma_product_two(a: ExprModel, b: ExprModel, env: spec_fn(ExprModel) -> int)
    ensures
        product_values(seq![a, b], env) == value(a, env) * value(b, env),
{
    let s = seq![a, b];
    assert(s.subrange(0, 1) =~= seq![a]);
    assert(seq![a].subrange(0, 0) =~= Seq::<ExprModel>::empty());
    assert(product_values(Seq::<ExprModel>::empty(), env) == 1);
    assert(product_values(seq![a], env) == value(a, env));
}

/// The value of a product of three factors.
pub proof fn lemma_product_three(a: ExprModel, b: ExprModel, c: ExprModel, env: spec_fn(ExprModel) -> int)
    ensures
        product_values(seq![a, b, c], env) == value(a, env) * value(b, env) * value(c, env),
{
    let s = seq![a, b, c];
    assert(s.subrange(0, 2) =~= seq![a, b]);
    lemma_product_two(a, b, env);
}

/// A polynomial expression: integers, variables, sums and products of
/// polynomials, and natural powers (machine-integer exponent `≥ 0`) of
/// polynomials.
pub open spec fn is_polynomial(m: ExprModel) -> bool
    decreases m, 1nat,
{
    match m {
        ExprModel::Number(NumberModel::Integer(_)) => true,
        ExprModel::Number(NumberModel::BigInteger(_)) => true,
        ExprModel::Symbol(_) => true,
        ExprModel::Add(ts) => all_polynomial(ts),
        ExprModel::Mul(ts) => all_polynomial(ts),
        ExprModel::Pow(b, e) => is_polynomial(*b) && match *e {
            ExprModel::Number(NumberModel::Integer(k)) => k >= 0,
            _ => false,
        },
        _ => false,
    }
}

/// Every member of `ts` is a polynomial.
pub open spec fn all_polynomial(ts: Seq<ExprModel>) -> bool
    decreases ts, 0nat,
{
    if ts.len() == 0 {
        true
    } else {
        all_polynomial(ts.subrange(0, ts.len() - 1)) && is_polynomial(ts[ts.len() - 1])
    }
}

/// `all_polynomial` says that each member is a polynomial.
pub proof fn lemma_all_polynomial(ts: Seq<ExprModel>)
    ensures
        all_polynomial(ts) <==> forall|i: int| 0 <= i < ts.len() ==> #[trigger] is_polynomial(ts[i]),
    decreases ts.len(),
{
    if ts.len() > 0 {
        let t = ts.subrange(0, ts.len() - 1);
        lemma_all_polynomial(t);
        if forall|i: int| 0 <= i < ts.len() ==> #[trigger] is_polynomial(ts[i]) {
            assert forall|i: int| 0 <= i < t.len() implies #[trigger] is_polynomial(t[i]) by {
                assert(t[i] == ts[i]);
            }
            assert(is_polynomial(ts[ts.len() - 1]));
            assert(all_polynomial(ts));
        }
        if all_polynomial(ts) {
            assert forall|i: int| 0 <= i < ts.len() implies #[trigger] is_polynomial(ts[i]) by {
                if i < ts.len() - 1 {
                    assert(t[i] == ts[i]);
                }
            }
        }
    }
}

/// Sums of members with equal values (under their own assignments) are equal.
pub proof fn lemma_sum_congruent(
    xs: Seq<ExprModel>,
    ys: Seq<ExprModel>,
    ex: spec_fn(ExprModel) -> int,
    ey: spec_fn(ExprModel) -> int,
)
    requires
        xs.len() == ys.len(),
        forall|i: int| 0 <= i < xs.len() ==> #[trigger] value(xs[i], ex) == value(ys[i], ey),
    ensures
        sum_values(xs, ex) == sum_values(ys, ey),
    decreases xs.len(),
{
    if xs.len() > 0 {
        lemma_sum_congruent(xs.subrange(0, xs.len() - 1), ys.subrange(0, ys.len() - 1), ex, ey);
        assert(value(xs[xs.len() - 1], ex) == value(ys[ys.len() - 1], ey));
    }
}

/// Products of members with equal values (under their own assignments) are equal.
pub proof fn lemma_product_congruent(
    xs: Seq<ExprModel>,
    ys: Seq<ExprModel>,
    ex: spec_fn(ExprModel) -> int,
    ey: spec_fn(ExprModel) -> int,
)
    requires
        xs.len() == ys.len(),
        forall|i: int| 0 <= i < xs.len() ==> #[trigger] value(xs[i], ex) == value(ys[i], ey),
    ensures
        product_values(xs, ex) == product_values(ys, ey),
    decreases xs.len(),
{
    if xs.len() > 0 {
        lemma_product_congruent(xs.subrange(0, xs.len() - 1), ys.subrange(0, ys.len() - 1), ex, ey);
        assert(value(xs[xs.len() - 1], ex) == value(ys[ys.len() - 1], ey));
    }
}

/// The members that are not integer constants of polynomials are polynomials.
proof fn lemma_non_consts_polynomial(ts: Seq<ExprModel>)
    requires
        all_polynomial(ts),
    ensures
        all_polynomial(non_consts(ts)),
    decreases ts.len(),
{
    lemma_all_polynomial(ts);
    if ts.len() > 0 {
        let t = ts.drop_last();
        lemma_all_polynomial(t);
        assert(all_polynomial(t)) by {
            assert forall|i: int| 0 <= i < t.len() implies #[trigger] is_polynomial(t[i]) by {
                assert(is_polynomial(ts[i]));
            }
        }
        lemma_non_consts_polynomial(t);
        lemma_all_polynomial(non_consts(t));
        lemma_all_polynomial(non_consts(ts));
        let last = ts.last();
        assert(is_polynomial(ts[ts.len() - 1]));
        let nc = non_consts(ts);
        assert forall|i: int| 0 <= i < nc.len() implies #[trigger] is_polynomial(nc[i]) by {
            if int_value(last) is None && i == nc.len() - 1 {
                assert(nc[i] == last);
            } else {
                assert(nc[i] == non_consts(t)[i]);
            }
        }
    }
}

/// The canonical sum of polynomials is a polynomial.
pub proof fn lemma_add_polynomial(ts: Seq<ExprModel>)
    requires
        all_polynomial(ts),
    ensures
        is_polynomial(spec_add(ts)),
{
    lemma_non_consts_polynomial(ts);
    let rest = non_consts(ts);
    lemma_all_polynomial(rest);
    let c = sum_consts(ts);
    let all = if c == 0 { rest } else { rest.push(number_model_of(c)) };
    lemma_all_polynomial(all);
    assert(all_polynomial(all)) by {
        assert forall|i: int| 0 <= i < all.len() implies #[trigger] is_polynomial(all[i]) by {
            if i < rest.len() {
                assert(is_polynomial(rest[i]));
            }
        }
    }
    if all.len() == 1 {
        assert(is_polynomial(all[0]));
    }
}

/// The canonical product of polynomials is a polynomial.
pub proof fn lemma_mul_polynomial(ts: Seq<ExprModel>)
    requires
        all_polynomial(ts),
    ensures
        is_polynomial(spec_mul(ts)),
{
    lemma_non_consts_polynomial(ts);
    let rest = non_consts(ts);
    lemma_all_polynomial(rest);
    let p = prod_consts(ts);
    let all = if p == 1 { rest } else { seq![number_model_of(p)] + rest };
    lemma_all_polynomial(all);
    assert(all_polynomial(all)) by {
        assert forall|i: int| 0 <= i < all.len() implies #[trigger] is_polynomial(all[i]) by {
            if p == 1 {
                assert(is_polynomial(rest[i]));
            } else if i > 0 {
                assert(all[i] == rest[i - 1]);
                assert(is_polynomial(rest[i - 1]));
            }
        }
    }
    if all.len() == 1 {
        assert(is_polynomial(all[0]));
    }
}

/// The canonical natural power of a polynomial is a polynomial.
pub proof fn lemma_pow_polynomial(b: ExprModel, k: int)
    requires
        is_polynomial(b),
        k >= 0,
    ensures
        is_polynomial(spec_pow(b, int_model(k))),
{
}

} // verus!
