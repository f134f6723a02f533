//! Simplification: sums, products and powers are rebuilt by their canonical
//! constructors from simplified parts, integer powers are computed when the
//! result fits in `i64`, and functions take their exact special values.

use crate::arith::{abs, power};
use crate::construct::{spec_add, spec_mul, spec_pow};
use crate::expr::{int_model, lemma_view_seq, view_seq, ExprModel, Expression};
use crate::factor::quadratic::fits_i64;
use crate::number::{Number, NumberModel};
use crate::value::{
    all_polynomial, is_polynomial, law_add_keeps_value, law_mul_keeps_value, law_pow_keeps_value,
    lemma_add_polynomial, lemma_all_polynomial, lemma_mul_polynomial, lemma_pow_polynomial,
    lemma_product_congruent, lemma_sum_congruent, value,
};
use vstd::prelude::*;

verus! {

/// Whether the string `name` spells the literal `lit`.
pub fn name_is(name: &String, lit: &str) -> (r: bool)
    ensures
        r == (name@ == lit@),
{
    let owned: String = lit.to_owned();
    *name == owned
}

/// Functions whose value at `0` is `0`.
pub open spec fn zero_at_zero(name: Seq<char>) -> bool {
    name == "sin"@ || name == "tan"@ || name == "sinh"@ || name == "tanh"@ || name == "arcsin"@
        || name == "asin"@ || name == "arctan"@ || name == "atan"@ || name == "sqrt"@
}

/// Functions whose value at `0` is `1`.
pub open spec fn one_at_zero(name: Seq<char>) -> bool {
    name == "cos"@ || name == "cosh"@ || name == "exp"@
}

/// Functions whose value at `1` is `0`.
pub open spec fn zero_at_one(name: Seq<char>) -> bool {
    name == "ln"@ || name == "log"@
}

/// The exact value of `name(args)` when it is one of the known special values:
/// `sin`, `tan`, `sinh`, `tanh`, `arcsin`, `arctan` and `sqrt` vanish at `0`;
/// `cos`, `cosh` and `exp` are `1` at `0`; `ln` and `log` vanish at `1`;
/// `sqrt(1) = 1`; and `abs` of a machine integer (other than `i64::MIN`) is its
/// absolute value.
pub open spec fn spec_dispatch(name: Seq<char>, args: Seq<ExprModel>) -> Option<ExprModel> {
    if args.len() != 1 {
        None
    } else if args[0] == int_model(0) && zero_at_zero(name) {
        Some(int_model(0))
    } else if args[0] == int_model(0) && one_at_zero(name) {
        Some(int_model(1))
    } else if args[0] == int_model(1) && zero_at_one(name) {
        Some(int_model(0))
    } else if args[0] == int_model(1) && name == "sqrt"@ {
        Some(int_model(1))
    } else if name == "abs"@ {
        match args[0] {
            ExprModel::Number(NumberModel::Integer(n)) => if n > i64::MIN {
                Some(int_model(if n < 0 { -n } else { n }))
            } else {
                None
            },
            _ => None,
        }
    } else {
        None
    }
}

/// The model of an optional expression.
pub open spec fn opt_model(o: Option<Expression>) -> Option<ExprModel> {
    match o {
        Some(e) => Some(e@),
        None => None,
    }
}

/// The exact special value of `name(args)`, if it has one (see [`spec_dispatch`]).
pub fn evaluate_function_dispatch(name: &String, args: &Vec<Expression>) -> (r: Option<Expression>)
    ensures
        opt_model(r) == spec_dispatch(name@, view_seq(args@)),
{
    proof {
        lemma_view_seq(args@);
    }
    if args.len() != 1 {
        return None;
    }
    let n: i64 = match &args[0] {
        Expression::Number(Number::Integer(n)) => *n,
        _ => {
            return None;
        },
    };
    let zz = name_is(name, "sin") || name_is(name, "tan") || name_is(name, "sinh") || name_is(
        name,
        "tanh",
    ) || name_is(name, "arcsin") || name_is(name, "asin") || name_is(name, "arctan") || name_is(
        name,
        "atan",
    ) || name_is(name, "sqrt");
    let oz = name_is(name, "cos") || name_is(name, "cosh") || name_is(name, "exp");
    let zo = name_is(name, "ln") || name_is(name, "log");
    if n == 0 && zz {
        Some(Expression::integer(0))
    } else if n == 0 && oz {
        Some(Expression::integer(1))
    } else if n == 1 && zo {
        Some(Expression::integer(0))
    } else if n == 1 && name_is(name, "sqrt") {
        Some(Expression::integer(1))
    } else if name_is(name, "abs") {
        if n > i64::MIN {
            Some(Expression::integer(if n < 0 { -n } else { n }))
        } else {
            None
        }
    } else {
        None
    }
}

/// `base^exp` with an integer base and a non-negative integer exponent is
/// computed when the result fits in `i64`; otherwise the canonical power.
pub open spec fn spec_fold_pow(base: ExprModel, exp: ExprModel) -> ExprModel {
    match base {
        ExprModel::Number(NumberModel::Integer(x)) => match exp {
            ExprModel::Number(NumberModel::Integer(k)) => if k >= 0 && fits_i64(power(x, k as nat)) {
                int_model(power(x, k as nat))
            } else {
                spec_pow(base, exp)
            },
            _ => spec_pow(base, exp),
        },
        _ => spec_pow(base, exp),
    }
}

/// The simplified form of the `i`-th member of `ts`.
pub open spec fn simplify_at(ts: Seq<ExprModel>, i: int) -> ExprModel
    decreases ts, 0nat,
{
    if 0 <= i < ts.len() {
        spec_simplify(ts[i])
    } else {
        int_model(0)
    }
}

/// The simplified forms of the members of `ts`.
pub open spec fn simplify_seq(ts: Seq<ExprModel>) -> Seq<ExprModel>
    decreases ts, 1nat,
{
    Seq::new(ts.len(), |i: int| simplify_at(ts, i))
}

/// Simplification: sums and products are rebuilt canonically from simplified
/// members, powers from simplified parts with integer powers computed, and a
/// function of simplified arguments takes its special value when it has one.
/// Every other kind of expression is left as it is.
pub open spec fn spec_simplify(m: ExprModel) -> ExprModel
    decreases m, 2nat,
{
    match m {
        ExprModel::Add(ts) => spec_add(simplify_seq(ts)),
        ExprModel::Mul(ts) => spec_mul(simplify_seq(ts)),
        ExprModel::Pow(b, e) => spec_fold_pow(spec_simplify(*b), spec_simplify(*e)),
        ExprModel::Function(name, args) => {
            let a = simplify_seq(args);
            match spec_dispatch(name, a) {
                Some(v) => v,
                None => ExprModel::Function(name, a),
            }
        },
        _ => m,
    }
}

/// Length and entries of `simplify_seq`.
pub proof fn lemma_simplify_seq(ts: Seq<ExprModel>)
    ensures
        simplify_seq(ts).len() == ts.len(),
        forall|i: int| 0 <= i < ts.len() ==> #[trigger] simplify_seq(ts)[i] == spec_simplify(ts[i]),
{
}

/// Simplification keeps the value of a polynomial: the simplified form is again
/// a polynomial, with the same value for every assignment of integers to the
/// variables.
pub proof fn law_simplify_keeps_value(m: ExprModel, env: spec_fn(ExprModel) -> int)
    requires
        is_polynomial(m),
    ensures
        is_polynomial(spec_simplify(m)),
        value(spec_simplify(m), env) == value(m, env),
    decreases m,
{
    match m {
        ExprModel::Add(ts) => {
            let ss = simplify_seq(ts);
            lemma_simplify_members(ts, env);
            lemma_sum_congruent(ss, ts, env, env);
            law_add_keeps_value(ss, env);
            lemma_add_polynomial(ss);
        },
        ExprModel::Mul(ts) => {
            let ss = simplify_seq(ts);
            lemma_simplify_members(ts, env);
            lemma_product_congruent(ss, ts, env, env);
            law_mul_keeps_value(ss, env);
            lemma_mul_polynomial(ss);
        },
        ExprModel::Pow(b, e) => {
            law_simplify_keeps_value(*b, env);
            let sb = spec_simplify(*b);
            let k = e->Number_0->Integer_0;
            assert(spec_simplify(*e) == *e);
            assert(*e == int_model(k));
            law_pow_keeps_value(sb, int_model(k), env);
            lemma_pow_polynomial(sb, k);
        },
        _ => {},
    }
}

/// The simplified members of a list of polynomials are polynomials with the
/// same values.
proof fn lemma_simplify_members(ts: Seq<ExprModel>, env: spec_fn(ExprModel) -> int)
    requires
        all_polynomial(ts),
    ensures
        all_polynomial(simplify_seq(ts)),
        simplify_seq(ts).len() == ts.len(),
        forall|i: int| 0 <= i < ts.len() ==> #[trigger] value(simplify_seq(ts)[i], env) == value(ts[i], env),
    decreases ts,
{
    let ss = simplify_seq(ts);
    lemma_all_polynomial(ts);
    assert forall|i: int| 0 <= i < ts.len() implies #[trigger] value(ss[i], env) == value(ts[i], env) by {
        law_simplify_keeps_value(ts[i], env);
    }
    assert forall|i: int| 0 <= i < ss.len() implies #[trigger] is_polynomial(ss[i]) by {
        law_simplify_keeps_value(ts[i], env);
    }
    lemma_all_polynomial(ss);
}

/// `|b^i| < |b^j|` for `i < j` when `|b| >= 2`.
proof fn lemma_power_grows(b: int, i: nat, j: nat)
    requires
        abs(b) >= 2,
        i < j,
    ensures
        abs(power(b, i)) < abs(power(b, j)),
    decreases j,
{
    let pj1 = power(b, (j - 1) as nat);
    if i < j - 1 {
        lemma_power_grows(b, i, (j - 1) as nat);
    }
    lemma_power_nonzero(b, (j - 1) as nat);
    lemma_abs_mul(b, pj1);
    let ab = abs(b) as int;
    let a1 = abs(pj1) as int;
    assert(ab * a1 > a1) by (nonlinear_arith)
        requires
            ab >= 2,
            a1 >= 1,
    ;
}

/// `|a·b| = |a|·|b|`.
proof fn lemma_abs_mul(a: int, b: int)
    ensures
        abs(a * b) == abs(a) * abs(b),
{
    if a >= 0 && b >= 0 {
        assert(a * b >= 0) by (nonlinear_arith)
            requires
                a >= 0,
                b >= 0,
        ;
    } else if a >= 0 && b < 0 {
        assert(a * b <= 0 && -(a * b) == a * (-b)) by (nonlinear_arith)
            requires
                a >= 0,
                b < 0,
        ;
    } else if a < 0 && b >= 0 {
        assert(a * b <= 0 && -(a * b) == (-a) * b) by (nonlinear_arith)
            requires
                a < 0,
                b >= 0,
        ;
    } else {
        assert(a * b > 0 && a * b == (-a) * (-b)) by (nonlinear_arith)
            requires
                a < 0,
                b < 0,
        ;
    }
}

/// `b^i` is never zero when `b` is not.
proof fn lemma_power_nonzero(b: int, i: nat)
    requires
        b != 0,
    ensures
        power(b, i) != 0,
    decreases i,
{
    if i > 0 {
        lemma_power_nonzero(b, (i - 1) as nat);
        let p = power(b, (i - 1) as nat);
        assert(b * p != 0) by (nonlinear_arith)
            requires
                b != 0,
                p != 0,
        ;
    }
}

/// `(-1)^k` alternates between `1` and `-1`.
proof fn lemma_power_minus_one(k: nat)
    ensures
        power(-1, k) == (if k % 2 == 0 { 1int } else { -1int }),
    decreases k,
{
    if k > 0 {
        lemma_power_minus_one((k - 1) as nat);
    }
}

/// `0^k` is `1` for `k = 0` and `0` after; `1^k` is `1`.
proof fn lemma_power_small(k: nat)
    ensures
        power(0, k) == (if k == 0 { 1int } else { 0int }),
        power(1, k) == 1,
    decreases k,
{
    if k > 0 {
        lemma_power_small((k - 1) as nat);
    }
}

/// `x^k`, when it fits in `i64`.
fn checked_int_pow(x: i64, k: i64) -> (r: Option<i64>)
    requires
        k >= 0,
    ensures
        match r {
            Some(v) => fits_i64(power(x as int, k as nat)) && v == power(x as int, k as nat),
            None => !fits_i64(power(x as int, k as nat)),
        },
{
    if x == 0 {
        proof {
            lemma_power_small(k as nat);
        }
        return if k == 0 { Some(1) } else { Some(0) };
    }
    if x == 1 {
        proof {
            lemma_power_small(k as nat);
        }
        return Some(1);
    }
    if x == -1 {
        proof {
            lemma_power_minus_one(k as nat);
        }
        return if k % 2 == 0 { Some(1) } else { Some(-1) };
    }
    let mut acc: i64 = 1;
    let mut i: i64 = 0;
    while i < k
        invariant
            0 <= i <= k,
            abs(x as int) >= 2,
            acc == power(x as int, i as nat),
        decreases k - i,
    {
        let ghost before = acc as int;
        assert(power(x as int, (i + 1) as nat) == x * before);
        match x.checked_mul(acc) {
            Some(v) => {
                acc = v;
                i = i + 1;
            },
            None => {
                proof {
                    let p1 = power(x as int, (i + 1) as nat);
                    assert(!fits_i64(p1));
                    if i + 1 < k {
                        lemma_power_grows(x as int, (i + 1) as nat, k as nat);
                    }
                }
                return None;
            },
        }
    }
    Some(acc)
}

/// `base^exp`, computed when both are machine integers, the exponent is not
/// negative and the result fits in `i64` (see [`spec_fold_pow`]).
pub fn fold_pow(base: Expression, exp: Expression) -> (r: Expression)
    ensures
        r@ == spec_fold_pow(base@, exp@),
{
    let operands: Option<(i64, i64)> = match (&base, &exp) {
        (Expression::Number(Number::Integer(x)), Expression::Number(Number::Integer(k))) => Some(
            (*x, *k),
        ),
        _ => None,
    };
    if let Some((x, k)) = operands {
        if k >= 0 {
            if let Some(v) = checked_int_pow(x, k) {
                return Expression::integer(v);
            }
        }
    }
    Expression::pow(base, exp)
}

/// Simplified copies of the members of `v`.
pub fn simplify_vec(v: &Vec<Expression>) -> (r: Vec<Expression>)
    ensures
        view_seq(r@) == simplify_seq(view_seq(v@)),
    decreases v, 0nat,
{
    let ghost ts = view_seq(v@);
    proof {
        lemma_view_seq(v@);
        lemma_simplify_seq(ts);
    }
    let mut out: Vec<Expression> = Vec::new();
    let mut i: usize = 0;
    while i < v.len()
        invariant
            i <= v.len(),
            ts == view_seq(v@),
            ts.len() == v.len(),
            forall|j: int| 0 <= j < v.len() ==> #[trigger] ts[j] == v@[j]@,
            out@.len() == i,
            forall|j: int| 0 <= j < i ==> #[trigger] out@[j]@ == spec_simplify(ts[j]),
        decreases v.len() - i,
    {
        proof {
            vstd::std_specs::vec::axiom_vec_index_decreases(*v, i as int);
        }
        out.push(v[i].simplify());
        i = i + 1;
    }
    proof {
        lemma_view_seq(out@);
        lemma_simplify_seq(ts);
    }
    assert(view_seq(out@) =~= simplify_seq(ts));
    out
}

impl Expression {
    /// The simplified form of the expression (see [`spec_simplify`]).
    pub fn simplify(&self) -> (r: Expression)
        ensures
            r@ == spec_simplify(self@),
        decreases self, 1nat,
    {
        match self {
            Expression::Add(ts) => Expression::add(simplify_vec(ts)),
            Expression::Mul(ts) => Expression::mul(simplify_vec(ts)),
            Expression::Pow(b, e) => {
                let sb = b.simplify();
                let se = e.simplify();
                fold_pow(sb, se)
            },
            Expression::Function { name, args } => {
                let a = simplify_vec(args);
                match evaluate_function_dispatch(name, &a) {
                    Some(v) => v,
                    None => Expression::Function { name: name.clone(), args: a },
                }
            },
            _ => self.deep_clone(),
        }
    }
}

} // verus!
