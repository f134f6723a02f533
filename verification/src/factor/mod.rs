//! Factoring: common factors and integer quadratics.

pub mod common;
pub mod divisibility;
pub mod quadratic;
pub mod rational_roots;

use crate::construct::{int_value, non_consts, prod_consts, spec_add, spec_mul};
use crate::expand::{law_expand_keeps_value, spec_expand};
use crate::expr::{int_model, number_model_of, lemma_view_seq, view_seq, ExprModel, Expression};
use crate::number::{Number, NumberModel};
use crate::value::{law_add_keeps_value, law_mul_keeps_value, lemma_product_two, sum_values, value};
use common::{
    divides_exactly, law_division_keeps_product, spec_common_factor, spec_divide, spec_divide_overflows,
};
use quadratic::{law_quadratic_factoring_keeps_value, spec_try_quadratic};
use vstd::prelude::*;

verus! {

/// Dividing some term of `ts` by `c` would reach `i64::MIN ÷ -1`.
pub open spec fn any_divide_overflows(ts: Seq<ExprModel>, c: ExprModel) -> bool {
    exists|i: int| 0 <= i < ts.len() && #[trigger] spec_divide_overflows(ts[i], c)
}

/// Every term of `ts` divides exactly by `c`.
pub open spec fn all_divide_exactly(ts: Seq<ExprModel>, c: ExprModel) -> bool {
    forall|i: int| 0 <= i < ts.len() ==> #[trigger] divides_exactly(ts[i], c)
}

/// Each term of `ts` divided by `c`.
pub open spec fn divide_all(ts: Seq<ExprModel>, c: ExprModel) -> Seq<ExprModel> {
    Seq::new(ts.len(), |i: int| spec_divide(ts[i], c))
}

/// The factored form of an expression. A sum whose terms share a factor other
/// than one, by which every term divides exactly, becomes that factor times the
/// sum of the quotients; otherwise a sum
/// that is an integer quadratic in one variable with rational roots becomes the
/// product of its linear factors. Anything else is left as it is.
pub open spec fn spec_factor(m: ExprModel) -> ExprModel {
    match m {
        ExprModel::Add(ts) => {
            let c = spec_common_factor(ts);
            if c != int_model(1) && !any_divide_overflows(ts, c) && all_divide_exactly(ts, c) {
                spec_mul(seq![c, spec_add(divide_all(ts, c))])
            } else {
                match spec_try_quadratic(ts) {
                    Some(p) => p,
                    None => m,
                }
            }
        },
        _ => m,
    }
}

/// The quotients of exactly dividing terms, times the divisor, sum to the terms.
proof fn lemma_quotients_sum(ts: Seq<ExprModel>, c: ExprModel, env: spec_fn(ExprModel) -> int)
    requires
        all_divide_exactly(ts, c),
    ensures
        value(c, env) * sum_values(divide_all(ts, c), env) == sum_values(ts, env),
    decreases ts.len(),
{
    let q = divide_all(ts, c);
    if ts.len() == 0 {
        assert(sum_values(q, env) == 0);
        assert(sum_values(ts, env) == 0);
    } else {
        let t = ts.subrange(0, ts.len() - 1);
        assert(q.subrange(0, q.len() - 1) =~= divide_all(t, c));
        lemma_quotients_sum(t, c, env);
        law_division_keeps_product(ts[ts.len() - 1], c, env);
        let vc = value(c, env);
        let s = sum_values(divide_all(t, c), env);
        let l = value(q[q.len() - 1], env);
        assert(vc * (s + l) == vc * s + l * vc) by (nonlinear_arith);
    }
}

/// Factoring takes a common factor out: when the terms of a sum share a factor
/// other than one (an integer content above one included) that divides every
/// term exactly without overflow, the factored form is that factor times the
/// sum of the quotients; when the factor is a non-zero machine integer and that
/// sum is not an integer, the factored form is the product with the integer as
/// its leading factor.
pub proof fn law_factor_takes_out_common_factor(ts: Seq<ExprModel>)
    requires
        spec_common_factor(ts) != int_model(1),
        !any_divide_overflows(ts, spec_common_factor(ts)),
        all_divide_exactly(ts, spec_common_factor(ts)),
    ensures
        spec_factor(ExprModel::Add(ts)) == spec_mul(
            seq![spec_common_factor(ts), spec_add(divide_all(ts, spec_common_factor(ts)))],
        ),
        ({
            let c = spec_common_factor(ts);
            let s = spec_add(divide_all(ts, c));
            (c matches ExprModel::Number(NumberModel::Integer(k)) && k != 0 && i64::MIN <= k <= i64::MAX) && int_value(s) is None
                ==> spec_factor(ExprModel::Add(ts)) == ExprModel::Mul(seq![c, s])
        }),
{
    let c = spec_common_factor(ts);
    let s = spec_add(divide_all(ts, c));
    if (c matches ExprModel::Number(NumberModel::Integer(k)) && k != 0 && i64::MIN <= k <= i64::MAX) && int_value(s) is None {
        let k = int_value(c)->Some_0;
        let f = seq![c, s];
        assert(f.drop_last() =~= seq![c]);
        assert(seq![c].drop_last() =~= Seq::<ExprModel>::empty());
        assert(f.last() == s);
        assert(seq![c].last() == c);
        let e = Seq::<ExprModel>::empty();
        assert(prod_consts(e) == 1);
        assert(non_consts(e) == e);
        assert(prod_consts(seq![c]) == 1 * k);
        assert(non_consts(seq![c]) == e);
        assert(prod_consts(f) == k * 1);
        assert(non_consts(f) == e.push(s));
        assert(e.push(s) =~= seq![s]);
        assert(number_model_of(k) == c);
        assert(seq![number_model_of(k)] + seq![s] =~= seq![c, s]);
        assert(k != 1);
    }
}

/// Factoring never changes the value: the factored form has, for every
/// assignment of integers to the atoms, the value of the expression.
pub proof fn law_factor_keeps_value(m: ExprModel, env: spec_fn(ExprModel) -> int)
    ensures
        value(spec_factor(m), env) == value(m, env),
{
    if let ExprModel::Add(ts) = m {
        let c = spec_common_factor(ts);
        if c != int_model(1) && !any_divide_overflows(ts, c) && all_divide_exactly(ts, c) {
            let sum = spec_add(divide_all(ts, c));
            law_mul_keeps_value(seq![c, sum], env);
            lemma_product_two(c, sum, env);
            law_add_keeps_value(divide_all(ts, c), env);
            lemma_quotients_sum(ts, c, env);
        } else {
            law_quadratic_factoring_keeps_value(ts, env);
        }
    }
}

/// Expanding a factorization gives back the value: for every assignment of
/// integers to the atoms, the expanded factored form has the value of the
/// expression.
pub proof fn law_factor_expands_back(m: ExprModel, env: spec_fn(ExprModel) -> int)
    ensures
        value(spec_expand(spec_factor(m)), env) == value(m, env),
{
    law_expand_keeps_value(spec_factor(m), env);
    law_factor_keeps_value(m, env);
}

impl Expression {
    /// The factored form of the expression (see [`spec_factor`]).
    pub fn factor(&self) -> (r: Expression)
        ensures
            r@ == spec_factor(self@),
    {
        match self {
            Expression::Add(terms) => {
                let ghost ts = view_seq(terms@);
                proof {
                    lemma_view_seq(terms@);
                }
                let common = self.find_common_factor_in_terms(terms.as_slice());
                let trivial = match &common {
                    Expression::Number(Number::Integer(n)) => *n == 1,
                    _ => false,
                };
                if !trivial {
                    let mut overflows = false;
                    let mut i: usize = 0;
                    while i < terms.len()
                        invariant
                            i <= terms.len(),
                            ts == view_seq(terms@),
                            ts.len() == terms.len(),
                            forall|j: int| 0 <= j < terms.len() ==> #[trigger] ts[j] == terms@[j]@,
                            overflows == exists|j: int|
                                0 <= j < i && #[trigger] spec_divide_overflows(ts[j], common@),
                        decreases terms.len() - i,
                    {
                        let o = self.divide_overflows(&terms[i], &common);
                        proof {
                            if o {
                                assert(spec_divide_overflows(ts[i as int], common@));
                            } else if !overflows {
                                assert forall|j: int| 0 <= j < i + 1 implies !#[trigger] spec_divide_overflows(ts[j], common@) by {
                                    if j == i {
                                        assert(ts[j] == terms@[j]@);
                                    }
                                }
                            }
                        }
                        overflows = overflows || o;
                        i = i + 1;
                    }
                    let mut exact = true;
                    if !overflows {
                        let mut k: usize = 0;
                        while k < terms.len()
                            invariant
                                k <= terms.len(),
                                ts == view_seq(terms@),
                                ts.len() == terms.len(),
                                forall|j: int| 0 <= j < terms.len() ==> #[trigger] ts[j] == terms@[j]@,
                                !any_divide_overflows(ts, common@),
                                exact == forall|j: int| 0 <= j < k ==> #[trigger] divides_exactly(ts[j], common@),
                            decreases terms.len() - k,
                        {
                            assert(!spec_divide_overflows(ts[k as int], common@));
                            let d = self.divides_exactly(&terms[k], &common);
                            proof {
                                if !d {
                                    assert(!divides_exactly(ts[k as int], common@));
                                }
                            }
                            exact = exact && d;
                            k = k + 1;
                        }
                    }
                    if !overflows && exact {
                        let mut quotients: Vec<Expression> = Vec::new();
                        let mut k: usize = 0;
                        while k < terms.len()
                            invariant
                                k <= terms.len(),
                                ts == view_seq(terms@),
                                ts.len() == terms.len(),
                                forall|j: int| 0 <= j < terms.len() ==> #[trigger] ts[j] == terms@[j]@,
                                !any_divide_overflows(ts, common@),
                                quotients@.len() == k,
                                forall|j: int| 0 <= j < k ==> #[trigger] quotients@[j]@ == spec_divide(ts[j], common@),
                            decreases terms.len() - k,
                        {
                            assert(!spec_divide_overflows(ts[k as int], common@));
                            quotients.push(self.divide_by_factor(&terms[k], &common));
                            k = k + 1;
                        }
                        proof {
                            lemma_view_seq(quotients@);
                            assert(view_seq(quotients@) =~= divide_all(ts, common@));
                        }
                        let ghost c = common@;
                        let sum = Expression::add(quotients);
                        let ghost s = sum@;
                        let parts = vec![common, sum];
                        proof {
                            lemma_view_seq(parts@);
                            assert(view_seq(parts@) =~= seq![c, s]);
                        }
                        return Expression::mul(parts);
                    }
                }
                match self.try_quadratic_factoring(terms.as_slice()) {
                    Some(p) => p,
                    None => self.deep_clone(),
                }
            },
            _ => self.deep_clone(),
        }
    }
}

} // verus!
