//! The canonicalising constructors of sums, products and powers: integer
//! constants are folded together, and trivial results collapse.

use crate::bigint::{big_add, big_mul, BigInteger};
use crate::expr::{int_model, lemma_view_seq, number_model_of, view_seq, ExprModel, Expression};
use crate::number::{Number, NumberModel};
use vstd::prelude::*;

verus! {

/// The value of an integer constant (machine or big), if the expression is one.
pub open spec fn int_value(m: ExprModel) -> Option<int> {
    match m {
        ExprModel::Number(NumberModel::Integer(i)) => Some(i),
        ExprModel::Number(NumberModel::BigInteger(v)) => Some(v),
        _ => None,
    }
}

/// Sum of the integer constants of `ts`.
pub open spec fn sum_consts(ts: Seq<ExprModel>) -> int
    decreases ts.len(),
{
    if ts.len() == 0 {
        0
    } else {
        sum_consts(ts.drop_last()) + match int_value(ts.last()) {
            Some(v) => v,
            None => 0,
        }
    }
}

/// Product of the integer constants of `ts`.
pub open spec fn prod_consts(ts: Seq<ExprModel>) -> int
    decreases ts.len(),
{
    if ts.len() == 0 {
        1
    } else {
        prod_consts(ts.drop_last()) * match int_value(ts.last()) {
            Some(v) => v,
            None => 1,
        }
    }
}

/// The members of `ts` that are not integer constants, in order.
pub open spec fn non_consts(ts: Seq<ExprModel>) -> Seq<ExprModel>
    decreases ts.len(),
{
    if ts.len() == 0 {
        Seq::empty()
    } else if int_value(ts.last()) is Some {
        non_consts(ts.drop_last())
    } else {
        non_consts(ts.drop_last()).push(ts.last())
    }
}

/// A sum of `all`: zero when empty, the term itself when single.
pub open spec fn collapse_sum(all: Seq<ExprModel>) -> ExprModel {
    if all.len() == 0 {
        int_model(0)
    } else if all.len() == 1 {
        all[0]
    } else {
        ExprModel::Add(all)
    }
}

/// A product of `all`: one when empty, the factor itself when single.
pub open spec fn collapse_prod(all: Seq<ExprModel>) -> ExprModel {
    if all.len() == 0 {
        int_model(1)
    } else if all.len() == 1 {
        all[0]
    } else {
        ExprModel::Mul(all)
    }
}

/// The sum of `ts`: its other terms in order, followed by the sum of its integer
/// constants unless that is zero.
pub open spec fn spec_add(ts: Seq<ExprModel>) -> ExprModel {
    let c = sum_consts(ts);
    let rest = non_consts(ts);
    collapse_sum(if c == 0 { rest } else { rest.push(number_model_of(c)) })
}

/// The product of `ts`: zero when its integer constants multiply to zero;
/// otherwise their product (unless it is one) followed by the other factors.
pub open spec fn spec_mul(ts: Seq<ExprModel>) -> ExprModel {
    let p = prod_consts(ts);
    if p == 0 {
        int_model(0)
    } else if p == 1 {
        collapse_prod(non_consts(ts))
    } else {
        collapse_prod(seq![number_model_of(p)] + non_consts(ts))
    }
}

/// The power `base^exp`: one for the exponent zero, the base for the exponent one.
pub open spec fn spec_pow(base: ExprModel, exp: ExprModel) -> ExprModel {
    if exp == int_model(0) {
        int_model(1)
    } else if exp == int_model(1) {
        base
    } else {
        ExprModel::Pow(Box::new(base), Box::new(exp))
    }
}

/// The integer constant held by `e`, as a big integer, if it holds one.
fn int_constant(e: &Expression) -> (r: Option<BigInteger>)
    ensures
        r is Some <==> int_value(e@) is Some,
        r matches Some(b) ==> int_value(e@) == Some(b@),
{
    match e {
        Expression::Number(Number::Integer(i)) => Some(BigInteger::from_i64(*i)),
        Expression::Number(Number::BigInteger(b)) => Some(b.clone()),
        _ => None,
    }
}

/// The first `i + 1` members are the first `i` followed by the member at `i`.
proof fn lemma_split_step(ts: Seq<ExprModel>, i: int)
    requires
        0 <= i < ts.len(),
    ensures
        ts.take(i + 1).drop_last() == ts.take(i),
        ts.take(i + 1).last() == ts[i],
{
    assert(ts.take(i + 1).drop_last() =~= ts.take(i));
}

impl Expression {
    /// The canonical sum of `terms` (see [`spec_add`]).
    pub fn add(terms: Vec<Expression>) -> (r: Expression)
        ensures
            r@ == spec_add(view_seq(terms@)),
    {
        let ghost ts = view_seq(terms@);
        proof {
            lemma_view_seq(terms@);
        }
        let mut acc = BigInteger::from_i64(0);
        let mut rest: Vec<Expression> = Vec::new();
        let mut i: usize = 0;
        while i < terms.len()
            invariant
                i <= terms.len(),
                ts == view_seq(terms@),
                ts.len() == terms.len(),
                forall|j: int| 0 <= j < terms.len() ==> #[trigger] ts[j] == terms@[j]@,
                acc@ == sum_consts(ts.take(i as int)),
                view_seq(rest@) == non_consts(ts.take(i as int)),
            decreases terms.len() - i,
        {
            proof {
                lemma_split_step(ts, i as int);
                lemma_view_seq(rest@);
            }
            match int_constant(&terms[i]) {
                Some(b) => {
                    acc = big_add(&acc, &b);
                },
                None => {
                    let ghost old_rest = rest@;
                    rest.push(terms[i].deep_clone());
                    proof {
                        lemma_view_seq(rest@);
                        assert(view_seq(rest@) =~= view_seq(old_rest).push(ts[i as int]));
                    }
                },
            }
            i = i + 1;
        }
        assert(ts.take(terms.len() as int) =~= ts);
        if !acc.is_zero() {
            let ghost old_rest = rest@;
            rest.push(Expression::big_integer(acc));
            proof {
                lemma_view_seq(rest@);
                lemma_view_seq(old_rest);
                assert(view_seq(rest@) =~= view_seq(old_rest).push(number_model_of(sum_consts(ts))));
            }
        }
        proof {
            lemma_view_seq(rest@);
        }
        if rest.len() == 0 {
            Expression::integer(0)
        } else if rest.len() == 1 {
            rest.pop().unwrap()
        } else {
            Expression::Add(rest)
        }
    }

    /// The canonical product of `factors` (see [`spec_mul`]).
    pub fn mul(factors: Vec<Expression>) -> (r: Expression)
        ensures
            r@ == spec_mul(view_seq(factors@)),
    {
        let ghost ts = view_seq(factors@);
        proof {
            lemma_view_seq(factors@);
        }
        let mut acc = BigInteger::from_i64(1);
        let mut rest: Vec<Expression> = Vec::new();
        let mut i: usize = 0;
        while i < factors.len()
            invariant
                i <= factors.len(),
                ts == view_seq(factors@),
                ts.len() == factors.len(),
                forall|j: int| 0 <= j < factors.len() ==> #[trigger] ts[j] == factors@[j]@,
                acc@ == prod_consts(ts.take(i as int)),
                view_seq(rest@) == non_consts(ts.take(i as int)),
            decreases factors.len() - i,
        {
            proof {
                lemma_split_step(ts, i as int);
                lemma_view_seq(rest@);
            }
            match int_constant(&factors[i]) {
                Some(b) => {
                    acc = big_mul(&acc, &b);
                },
                None => {
                    let ghost old_rest = rest@;
                    rest.push(factors[i].deep_clone());
                    proof {
                        lemma_view_seq(rest@);
                        assert(view_seq(rest@) =~= view_seq(old_rest).push(ts[i as int]));
                    }
                },
            }
            i = i + 1;
        }
        assert(ts.take(factors.len() as int) =~= ts);
        if acc.is_zero() {
            return Expression::integer(0);
        }
        let ghost p = acc@;
        let mut all: Vec<Expression> = Vec::new();
        if !acc.is_one() {
            all.push(Expression::big_integer(acc));
        }
        let ghost first = all@;
        assert(p == 1 ==> first.len() == 0);
        assert(p != 1 ==> first.len() == 1 && first[0]@ == number_model_of(p));
        let mut k: usize = 0;
        while k < rest.len()
            invariant
                k <= rest.len(),
                all@.len() == first.len() + k,
                forall|j: int| 0 <= j < first.len() ==> #[trigger] all@[j] == first[j],
                forall|j: int| 0 <= j < k ==> #[trigger] all@[first.len() + j]@ == rest@[j]@,
            decreases rest.len() - k,
        {
            all.push(rest[k].deep_clone());
            k = k + 1;
        }
        proof {
            lemma_view_seq(all@);
            lemma_view_seq(rest@);
            lemma_view_seq(first);
            assert(view_seq(rest@) == non_consts(ts));
            let target = if p == 1 {
                non_consts(ts)
            } else {
                seq![number_model_of(p)] + non_consts(ts)
            };
            assert forall|j: int| 0 <= j < all@.len() implies view_seq(all@)[j] == target[j] by {
                if j >= first.len() {
                    let jj = j - first.len();
                    assert(all@[first.len() + jj]@ == rest@[jj]@);
                }
            }
            assert(view_seq(all@) =~= target);
        }
        if all.len() == 0 {
            Expression::integer(1)
        } else if all.len() == 1 {
            all.pop().unwrap()
        } else {
            Expression::Mul(all)
        }
    }

    /// The canonical power `base^exp` (see [`spec_pow`]).
    pub fn pow(base: Expression, exp: Expression) -> (r: Expression)
        ensures
            r@ == spec_pow(base@, exp@),
    {
        match &exp {
            Expression::Number(Number::Integer(0)) => {
                return Expression::integer(1);
            },
            Expression::Number(Number::Integer(1)) => {
                return base;
            },
            _ => {},
        }
        Expression::Pow(Box::new(base), Box::new(exp))
    }
}

} // verus!
