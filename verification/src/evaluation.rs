//! Evaluation: exact evaluation with domain checks, and evaluation under a
//! context (substitution, simplification, numerical conversion).

use crate::arith::abs;
use crate::bigint::{big_add, big_mul, big_to_i64, BigInteger};
use crate::construct::{spec_add, spec_mul, spec_pow};
use crate::error::{result_model, vec_result_model, ErrorModel, MathError};
use crate::eval_numeric::{
    is_negative_model, is_negative_number, is_zero_model, is_zero_number, law_eval_numeric_keeps_value,
    spec_eval_numeric, EvalContext, EvalNumeric,
};
use crate::expr::{int_model, lemma_view_seq, view_seq, ExprModel, Expression};
use crate::number::{number_negative, number_zero, Number, NumberModel, SIGN_BIT};
use crate::pole::{float_is_pole, float_is_pole_exec, integer_is_pole, integer_is_pole_exec};
use crate::simplify::{
    evaluate_function_dispatch, law_simplify_keeps_value, name_is, spec_dispatch, spec_simplify,
};
use crate::subst::{assign, law_substitute_keeps_value, polynomial_values, spec_substitute};
use crate::value::{
    all_polynomial, is_polynomial, law_add_keeps_value, law_mul_keeps_value, law_pow_keeps_value,
    lemma_add_polynomial, lemma_mul_polynomial, lemma_pow_polynomial, lemma_product_congruent,
    lemma_sum_congruent, value,
};
use vstd::prelude::*;

verus! {

/// Bit pattern of the double `1e-10`, the tolerance of the pole checks.
pub const EPSILON_BITS: u64 = 0x3ddb_7cdf_d9d7_bdbbu64;

/// Bit pattern of the double `1.0`.
pub const ONE_BITS: u64 = 0x3ff0_0000_0000_0000u64;

/// The bit pattern of the absolute value of the double with bit pattern `b`.
/// For non-NaN doubles, magnitudes compare as the absolute values do, and every
/// NaN's magnitude is above that of infinity.
pub open spec fn float_magnitude(b: u64) -> u64 {
    if b >= SIGN_BIT {
        (b - SIGN_BIT) as u64
    } else {
        b
    }
}

/// The expression is a number whose absolute value is below `1e-10`.
pub open spec fn near_zero(m: ExprModel) -> bool {
    match m {
        ExprModel::Number(NumberModel::Integer(i)) => i == 0,
        ExprModel::Number(NumberModel::Float(b)) => float_magnitude(b) < EPSILON_BITS,
        ExprModel::Number(NumberModel::BigInteger(v)) => v == 0,
        ExprModel::Number(NumberModel::Rational(p, q)) => abs(p) * 10_000_000_000 < q,
        _ => false,
    }
}

/// The expression is a number outside `[-1, 1]` (a NaN included).
pub open spec fn outside_unit(m: ExprModel) -> bool {
    match m {
        ExprModel::Number(NumberModel::Integer(i)) => i < -1 || i > 1,
        ExprModel::Number(NumberModel::Float(b)) => float_magnitude(b) > ONE_BITS,
        ExprModel::Number(NumberModel::BigInteger(v)) => v < -1 || v > 1,
        ExprModel::Number(NumberModel::Rational(p, q)) => abs(p) > q,
        _ => false,
    }
}

/// The error that the real domain of `name` gives for the evaluated arguments
/// `args`, judged on the first of them: `sqrt` of a negative number; `log` or
/// `ln` at a pole (a number within `1e-10` of zero) or on the branch cut (a
/// negative number); `arcsin`/`asin` and `arccos`/`acos` outside `[-1, 1]`;
/// `tan`, `sec`, `csc` and `cot` at a pole: at an integer or a double, the
/// remainder by π is decided exactly ([`integer_is_pole`], [`float_is_pole`]);
/// `csc` and `cot` have a pole at an exact zero; at any other big integer or
/// fraction the test goes through a floating-point conversion and division
/// that this evaluation does not compute: the decision is read from
/// `answers`, and without one the argument is reported as unchecked
/// ([`unchecked_pole`]).
pub open spec fn domain_error(name: Seq<char>, args: Seq<ExprModel>, answers: Seq<(Seq<char>, ExprModel, bool)>) -> Option<ErrorModel> {
    if args.len() == 0 {
        None
    } else if name == "sqrt"@ {
        if is_negative_model(args[0]) {
            Some(
                ErrorModel::DomainError {
                    operation: "sqrt"@,
                    value: args[0],
                    reason: "sqrt requires non-negative input in real domain"@,
                },
            )
        } else {
            None
        }
    } else if name == "log"@ || name == "ln"@ {
        if near_zero(args[0]) {
            Some(ErrorModel::Pole { function: name, at: args[0] })
        } else if is_negative_model(args[0]) {
            Some(ErrorModel::BranchCut { function: name, value: args[0] })
        } else {
            None
        }
    } else if name == "arcsin"@ || name == "asin"@ {
        if outside_unit(args[0]) {
            Some(
                ErrorModel::DomainError {
                    operation: "arcsin"@,
                    value: args[0],
                    reason: "arcsin requires input in [-1, 1] in real domain"@,
                },
            )
        } else {
            None
        }
    } else if name == "arccos"@ || name == "acos"@ {
        if outside_unit(args[0]) {
            Some(
                ErrorModel::DomainError {
                    operation: "arccos"@,
                    value: args[0],
                    reason: "arccos requires input in [-1, 1] in real domain"@,
                },
            )
        } else {
            None
        }
    } else if name == "tan"@ || name == "sec"@ || name == "csc"@ || name == "cot"@ {
        let tangent_like = name == "tan"@ || name == "sec"@;
        match args[0] {
            ExprModel::Number(NumberModel::Integer(n)) => if integer_is_pole(tangent_like, n) {
                Some(ErrorModel::Pole { function: name, at: args[0] })
            } else {
                None
            },
            ExprModel::Number(NumberModel::Float(b)) => if float_is_pole(tangent_like, b) {
                Some(ErrorModel::Pole { function: name, at: args[0] })
            } else {
                None
            },
            ExprModel::Number(_) => if is_zero_model(args[0]) {
                if tangent_like {
                    None
                } else {
                    Some(ErrorModel::Pole { function: name, at: args[0] })
                }
            } else {
                recorded_pole(answers, name, args[0])
            },
            _ => None,
        }
    } else {
        None
    }
}

/// The recorded answer, if any, to whether `name` has a pole at `a`: the first
/// entry of `answers` for that function and argument.
pub open spec fn pole_answer(answers: Seq<(Seq<char>, ExprModel, bool)>, name: Seq<char>, a: ExprModel) -> Option<bool>
    decreases answers.len(),
{
    if answers.len() == 0 {
        None
    } else if answers[0].0 == name && answers[0].1 == a {
        Some(answers[0].2)
    } else {
        pole_answer(answers.drop_first(), name, a)
    }
}

/// Why an argument is reported as unchecked.
pub open spec fn unchecked_reason() -> Seq<char> {
    "the pole check needs floating-point arithmetic"@
}

/// The error reporting that whether `name` has a pole at `a` was not decided.
pub open spec fn unchecked_pole(name: Seq<char>, a: ExprModel) -> ErrorModel {
    ErrorModel::DomainError { operation: name, value: a, reason: unchecked_reason() }
}

/// The pole error that the recorded answer gives, or the report that there is
/// no answer.
pub open spec fn recorded_pole(answers: Seq<(Seq<char>, ExprModel, bool)>, name: Seq<char>, a: ExprModel) -> Option<ErrorModel> {
    match pole_answer(answers, name, a) {
        Some(true) => Some(ErrorModel::Pole { function: name, at: a }),
        Some(false) => None,
        None => Some(unchecked_pole(name, a)),
    }
}

/// Evaluation of the members of `ts` in order; the first error stops it.
pub open spec fn evaluate_seq(ts: Seq<ExprModel>, answers: Seq<(Seq<char>, ExprModel, bool)>) -> Result<Seq<ExprModel>, ErrorModel>
    decreases ts, 0nat,
{
    if ts.len() == 0 {
        Ok(Seq::empty())
    } else {
        match evaluate_seq(ts.subrange(0, ts.len() - 1), answers) {
            Err(x) => Err(x),
            Ok(p) => match spec_evaluate(ts[ts.len() - 1], answers) {
                Err(x) => Err(x),
                Ok(v) => Ok(p.push(v)),
            },
        }
    }
}

/// Exact evaluation. Sums, products and powers are evaluated part by part and
/// simplified; zero raised to a negative number is a division by zero. A
/// function called `undefined` is a division by zero; any other function has
/// its arguments evaluated, then its real domain checked ([`domain_error`]),
/// then takes its special value ([`spec_dispatch`]) or is simplified. Every
/// other expression is simplified.
pub open spec fn spec_evaluate(m: ExprModel, answers: Seq<(Seq<char>, ExprModel, bool)>) -> Result<ExprModel, ErrorModel>
    decreases m, 1nat,
{
    match m {
        ExprModel::Add(ts) => match evaluate_seq(ts, answers) {
            Ok(vs) => Ok(spec_simplify(spec_add(vs))),
            Err(x) => Err(x),
        },
        ExprModel::Mul(ts) => match evaluate_seq(ts, answers) {
            Ok(vs) => Ok(spec_simplify(spec_mul(vs))),
            Err(x) => Err(x),
        },
        ExprModel::Pow(b, e) => match spec_evaluate(*b, answers) {
            Err(x) => Err(x),
            Ok(bv) => match spec_evaluate(*e, answers) {
                Err(x) => Err(x),
                Ok(ev) => if is_zero_model(bv) && is_negative_model(ev) {
                    Err(ErrorModel::DivisionByZero)
                } else {
                    Ok(spec_simplify(spec_pow(bv, ev)))
                },
            },
        },
        ExprModel::Function(name, args) => if name == "undefined"@ {
            Err(ErrorModel::DivisionByZero)
        } else {
            match evaluate_seq(args, answers) {
                Err(x) => Err(x),
                Ok(a) => match domain_error(name, a, answers) {
                    Some(x) => Err(x),
                    None => match spec_dispatch(name, a) {
                        Some(v) => Ok(v),
                        None => Ok(spec_simplify(ExprModel::Function(name, a))),
                    },
                },
            }
        },
        _ => Ok(spec_simplify(m)),
    }
}

/// One more member evaluated.
proof fn lemma_evaluate_seq_step(ts: Seq<ExprModel>, i: int, answers: Seq<(Seq<char>, ExprModel, bool)>)
    requires
        0 <= i < ts.len(),
    ensures
        evaluate_seq(ts.take(i + 1), answers) == match evaluate_seq(ts.take(i), answers) {
            Err(x) => Err(x),
            Ok(p) => match spec_evaluate(ts[i], answers) {
                Err(x) => Err(x),
                Ok(v) => Ok(p.push(v)),
            },
        },
{
    assert(ts.take(i + 1).subrange(0, i) =~= ts.take(i));
}

/// Once a prefix fails, the whole sequence fails with the same error.
proof fn lemma_evaluate_seq_err(ts: Seq<ExprModel>, k: int, answers: Seq<(Seq<char>, ExprModel, bool)>)
    requires
        0 <= k <= ts.len(),
        evaluate_seq(ts.take(k), answers) is Err,
    ensures
        evaluate_seq(ts, answers) == evaluate_seq(ts.take(k), answers),
    decreases ts.len() - k,
{
    if k == ts.len() {
        assert(ts.take(k) =~= ts);
    } else {
        lemma_evaluate_seq_step(ts, k, answers);
        lemma_evaluate_seq_err(ts, k + 1, answers);
    }
}

/// Evaluation under a context with variables substitutes first: it is the
/// evaluation, under the same settings and no variables, of the substituted
/// expression.
pub proof fn law_context_substitutes_first(
    m: ExprModel,
    vars: Map<Seq<char>, ExprModel>,
    numeric: bool,
    simplify_first: bool,
)
    requires
        vars.len() > 0,
    ensures
        spec_evaluate_in_context(m, vars, numeric, simplify_first) == spec_evaluate_in_context(
            spec_substitute(m, vars),
            Map::<Seq<char>, ExprModel>::empty(),
            numeric,
            simplify_first,
        ),
{
    assert(Map::<Seq<char>, ExprModel>::empty().len() == 0);
}

/// Simplifying first is the same as simplifying the result of the plain
/// evaluation: in a symbolic context, evaluation with `simplify_first` gives the
/// simplified form of what evaluation without it gives; in a numeric context,
/// it gives the numerical value of that simplified form.
pub proof fn law_simplify_first_simplifies(m: ExprModel, vars: Map<Seq<char>, ExprModel>)
    ensures
        spec_evaluate_in_context(m, vars, false, false) is Ok,
        spec_evaluate_in_context(m, vars, false, true) == Ok::<ExprModel, ErrorModel>(
            spec_simplify(spec_evaluate_in_context(m, vars, false, false)->Ok_0),
        ),
        spec_evaluate_in_context(m, vars, true, true) == spec_evaluate_in_context(
            spec_simplify(spec_evaluate_in_context(m, vars, false, false)->Ok_0),
            Map::<Seq<char>, ExprModel>::empty(),
            true,
            false,
        ),
{
    assert(Map::<Seq<char>, ExprModel>::empty().len() == 0);
}

/// A single number evaluates to itself.
proof fn lemma_number_argument(m: ExprModel, answers: Seq<(Seq<char>, ExprModel, bool)>)
    requires
        m is Number,
    ensures
        evaluate_seq(seq![m], answers) == Ok::<Seq<ExprModel>, ErrorModel>(seq![m]),
{
    let args = seq![m];
    assert(args.subrange(0, 0) =~= Seq::<ExprModel>::empty());
    assert(spec_evaluate(m, answers) == Ok::<ExprModel, ErrorModel>(m));
    assert(evaluate_seq(Seq::<ExprModel>::empty(), answers) == Ok::<Seq<ExprModel>, ErrorModel>(
        Seq::<ExprModel>::empty(),
    ));
    assert(args[args.len() - 1] == m);
    assert(Seq::<ExprModel>::empty().push(m) =~= args);
}

/// Exact evaluation of `sqrt` at a number fails exactly when the number is
/// negative; at any number that is not negative (zero included) it succeeds.
pub proof fn law_sqrt_fails_exactly_below_zero(m: ExprModel, answers: Seq<(Seq<char>, ExprModel, bool)>)
    requires
        m is Number,
    ensures
        spec_evaluate(ExprModel::Function("sqrt"@, seq![m]), answers) is Err <==> is_negative_model(m),
{
    lemma_number_argument(m, answers);
    assert("sqrt"@ != "undefined"@) by {
        reveal_strlit("sqrt");
        reveal_strlit("undefined");
        assert("sqrt"@.len() != "undefined"@.len());
    }
}

/// Exact evaluation of `log` or `ln` at a number: a pole at a number within
/// `1e-10` of zero, the branch cut at any other negative number, and success
/// at every other number.
pub proof fn law_log_domain(name: Seq<char>, m: ExprModel, answers: Seq<(Seq<char>, ExprModel, bool)>)
    requires
        name == "log"@ || name == "ln"@,
        m is Number,
    ensures
        near_zero(m) ==> spec_evaluate(ExprModel::Function(name, seq![m]), answers) == Err::<
            ExprModel,
            ErrorModel,
        >(ErrorModel::Pole { function: name, at: m }),
        !near_zero(m) && is_negative_model(m) ==> spec_evaluate(ExprModel::Function(name, seq![m]), answers)
            == Err::<ExprModel, ErrorModel>(ErrorModel::BranchCut { function: name, value: m }),
        !near_zero(m) && !is_negative_model(m) ==> spec_evaluate(
            ExprModel::Function(name, seq![m]),
            answers,
        ) is Ok,
{
    lemma_number_argument(m, answers);
    reveal_strlit("log");
    reveal_strlit("ln");
    reveal_strlit("sqrt");
    reveal_strlit("undefined");
    assert(name != "undefined"@) by {
        assert(name.len() != "undefined"@.len());
    }
    assert(name != "sqrt"@) by {
        if name == "log"@ {
            assert(name[0] != "sqrt"@[0]);
        } else {
            assert(name.len() != "sqrt"@.len());
        }
    }
}

/// Exact evaluation of `arcsin`, `asin`, `arccos` or `acos` at a number fails
/// exactly when the number lies outside `[-1, 1]`.
pub proof fn law_inverse_sine_cosine_domain(name: Seq<char>, m: ExprModel, answers: Seq<(Seq<char>, ExprModel, bool)>)
    requires
        name == "arcsin"@ || name == "asin"@ || name == "arccos"@ || name == "acos"@,
        m is Number,
    ensures
        spec_evaluate(ExprModel::Function(name, seq![m]), answers) is Err <==> outside_unit(m),
{
    lemma_number_argument(m, answers);
    reveal_strlit("arcsin");
    reveal_strlit("asin");
    reveal_strlit("arccos");
    reveal_strlit("acos");
    reveal_strlit("log");
    reveal_strlit("ln");
    reveal_strlit("sqrt");
    reveal_strlit("undefined");
    assert(name[0] == 'a');
    assert(name != "undefined"@) by {
        assert(name[0] != "undefined"@[0]);
    }
    assert(name != "sqrt"@) by {
        assert(name[0] != "sqrt"@[0]);
    }
    assert(name != "log"@) by {
        assert(name[0] != "log"@[0]);
    }
    assert(name != "ln"@) by {
        assert(name[0] != "ln"@[0]);
    }
    if name == "arccos"@ || name == "acos"@ {
        assert(name != "arcsin"@) by {
            if name == "arccos"@ {
                assert(name[3] != "arcsin"@[3]);
            } else {
                assert(name.len() != "arcsin"@.len());
            }
        }
        assert(name != "asin"@) by {
            if name == "acos"@ {
                assert(name[1] != "asin"@[1]);
            } else {
                assert(name.len() != "asin"@.len());
            }
        }
    }
}

/// The parts that exact evaluation evaluates in turn before anything else: the
/// terms of a sum, the factors of a product, the arguments of a function other
/// than `undefined`.
pub open spec fn evaluated_parts(m: ExprModel) -> Option<Seq<ExprModel>> {
    match m {
        ExprModel::Add(ts) => Some(ts),
        ExprModel::Mul(ts) => Some(ts),
        ExprModel::Function(name, args) => if name == "undefined"@ {
            None
        } else {
            Some(args)
        },
        _ => None,
    }
}

/// Part `j` is the first of `ts` whose evaluation fails.
pub open spec fn first_failure(ts: Seq<ExprModel>, j: int, answers: Seq<(Seq<char>, ExprModel, bool)>) -> bool {
    &&& 0 <= j < ts.len()
    &&& spec_evaluate(ts[j], answers) is Err
    &&& forall|i: int| 0 <= i < j ==> #[trigger] spec_evaluate(ts[i], answers) is Ok
}

/// Before the first failure every prefix evaluates.
proof fn lemma_prefix_evaluates(ts: Seq<ExprModel>, i: int, j: int, answers: Seq<(Seq<char>, ExprModel, bool)>)
    requires
        first_failure(ts, j, answers),
        0 <= i <= j,
    ensures
        evaluate_seq(ts.take(i), answers) is Ok,
    decreases i,
{
    if i == 0 {
        assert(ts.take(0) =~= Seq::<ExprModel>::empty());
    } else {
        lemma_prefix_evaluates(ts, i - 1, j, answers);
        lemma_evaluate_seq_step(ts, i - 1, answers);
        assert(spec_evaluate(ts[i - 1], answers) is Ok);
    }
}

/// Before the first failure every prefix evaluates; at it the sequence fails
/// with that part's error.
proof fn lemma_first_failure_seq(ts: Seq<ExprModel>, j: int, answers: Seq<(Seq<char>, ExprModel, bool)>)
    requires
        first_failure(ts, j, answers),
    ensures
        evaluate_seq(ts, answers) is Err,
        evaluate_seq(ts, answers)->Err_0 == spec_evaluate(ts[j], answers)->Err_0,
{
    lemma_prefix_evaluates(ts, j, j, answers);
    lemma_evaluate_seq_step(ts, j, answers);
    lemma_evaluate_seq_err(ts, j + 1, answers);
}

/// A failure inside is passed on unchanged: for a sum, a product or a function
/// other than `undefined`, exact evaluation fails with the error of the first
/// part whose evaluation fails, before any check of its own.
pub proof fn law_first_failure_is_returned(m: ExprModel, j: int, answers: Seq<(Seq<char>, ExprModel, bool)>)
    requires
        evaluated_parts(m) is Some,
        first_failure(evaluated_parts(m)->Some_0, j, answers),
    ensures
        spec_evaluate(m, answers) == spec_evaluate(evaluated_parts(m)->Some_0[j], answers),
{
    lemma_first_failure_seq(evaluated_parts(m)->Some_0, j, answers);
}

/// A failure inside a power is passed on unchanged: the base's error if its
/// evaluation fails, else the exponent's if that fails.
pub proof fn law_power_failure_is_returned(b: ExprModel, e: ExprModel, answers: Seq<(Seq<char>, ExprModel, bool)>)
    ensures
        spec_evaluate(b, answers) is Err ==> spec_evaluate(ExprModel::Pow(Box::new(b), Box::new(e)), answers)
            == spec_evaluate(b, answers),
        spec_evaluate(b, answers) is Ok && spec_evaluate(e, answers) is Err ==> spec_evaluate(
            ExprModel::Pow(Box::new(b), Box::new(e)),
            answers,
        ) == spec_evaluate(e, answers),
{
}

/// Evaluation of a polynomial never fails and keeps its value: the result is a
/// polynomial with the same value for every assignment of integers to the
/// variables.
pub proof fn law_evaluate_keeps_value(
    m: ExprModel,
    answers: Seq<(Seq<char>, ExprModel, bool)>,
    env: spec_fn(ExprModel) -> int,
)
    requires
        is_polynomial(m),
    ensures
        spec_evaluate(m, answers) is Ok,
        is_polynomial(spec_evaluate(m, answers)->Ok_0),
        value(spec_evaluate(m, answers)->Ok_0, env) == value(m, env),
    decreases m, 1nat,
{
    match m {
        ExprModel::Add(ts) => {
            lemma_evaluate_members(ts, answers, env);
            let xs = evaluate_seq(ts, answers)->Ok_0;
            lemma_sum_congruent(xs, ts, env, env);
            law_add_keeps_value(xs, env);
            lemma_add_polynomial(xs);
            law_simplify_keeps_value(spec_add(xs), env);
        },
        ExprModel::Mul(ts) => {
            lemma_evaluate_members(ts, answers, env);
            let xs = evaluate_seq(ts, answers)->Ok_0;
            lemma_product_congruent(xs, ts, env, env);
            law_mul_keeps_value(xs, env);
            lemma_mul_polynomial(xs);
            law_simplify_keeps_value(spec_mul(xs), env);
        },
        ExprModel::Pow(b, e) => {
            law_evaluate_keeps_value(*b, answers, env);
            let bv = spec_evaluate(*b, answers)->Ok_0;
            let k = e->Number_0->Integer_0;
            assert(*e == int_model(k));
            assert(spec_evaluate(*e, answers) == Ok::<ExprModel, ErrorModel>(*e));
            law_pow_keeps_value(bv, int_model(k), env);
            lemma_pow_polynomial(bv, k);
            law_simplify_keeps_value(spec_pow(bv, int_model(k)), env);
        },
        _ => {},
    }
}

/// The evaluation of a list of polynomials succeeds member by member, keeping
/// each value.
proof fn lemma_evaluate_members(
    ts: Seq<ExprModel>,
    answers: Seq<(Seq<char>, ExprModel, bool)>,
    env: spec_fn(ExprModel) -> int,
)
    requires
        all_polynomial(ts),
    ensures
        evaluate_seq(ts, answers) is Ok,
        evaluate_seq(ts, answers)->Ok_0.len() == ts.len(),
        all_polynomial(evaluate_seq(ts, answers)->Ok_0),
        forall|i: int| 0 <= i < ts.len() ==> #[trigger] value(evaluate_seq(ts, answers)->Ok_0[i], env) == value(ts[i], env),
    decreases ts, 0nat,
{
    if ts.len() == 0 {
        assert(all_polynomial(Seq::<ExprModel>::empty()));
    } else {
        let t = ts.subrange(0, ts.len() - 1);
        lemma_evaluate_members(t, answers, env);
        law_evaluate_keeps_value(ts[ts.len() - 1], answers, env);
        let p = evaluate_seq(t, answers)->Ok_0;
        let v = spec_evaluate(ts[ts.len() - 1], answers)->Ok_0;
        let xs = p.push(v);
        assert(evaluate_seq(ts, answers) == Ok::<Seq<ExprModel>, ErrorModel>(xs));
        assert forall|i: int| 0 <= i < ts.len() implies #[trigger] value(xs[i], env) == value(ts[i], env) by {
            if i < ts.len() - 1 {
                assert(t[i] == ts[i]);
            }
        }
        assert(xs.subrange(0, xs.len() - 1) =~= p);
    }
}

/// Evaluation under a context is evaluation of the variables: for a polynomial
/// whose variables are given polynomial values, evaluation under any context
/// succeeds, and its result has, for every assignment of integers to the
/// variables, the value of the polynomial with the given values substituted.
pub proof fn law_context_evaluation_keeps_value(
    m: ExprModel,
    vars: Map<Seq<char>, ExprModel>,
    numeric: bool,
    simplify_first: bool,
    env: spec_fn(ExprModel) -> int,
)
    requires
        is_polynomial(m),
        polynomial_values(vars),
        vars.dom().finite(),
    ensures
        spec_evaluate_in_context(m, vars, numeric, simplify_first) is Ok,
        value(spec_evaluate_in_context(m, vars, numeric, simplify_first)->Ok_0, env) == value(
            m,
            assign(vars, env),
        ),
{
    let a = assign(vars, env);
    let s1 = if vars.len() == 0 {
        m
    } else {
        spec_substitute(m, vars)
    };
    if vars.len() == 0 {
        assert(vars.dom() =~= Set::<Seq<char>>::empty()) by {
            vstd::set_lib::lemma_set_empty_equivalency_len(vars.dom());
        }
        assert(a =~= env);
    } else {
        law_substitute_keeps_value(m, vars, env);
    }
    assert(is_polynomial(s1) && value(s1, env) == value(m, a));
    let s2 = if simplify_first {
        spec_simplify(s1)
    } else {
        s1
    };
    if simplify_first {
        law_simplify_keeps_value(s1, env);
    }
    if numeric {
        law_eval_numeric_keeps_value(s2, env);
    }
}

/// Under the symbolic context (no variables, no numerical conversion, no
/// simplification first) evaluation returns the expression unchanged.
pub proof fn law_symbolic_context_returns_input(m: ExprModel)
    ensures
        spec_evaluate_in_context(m, Map::empty(), false, false) == Ok::<ExprModel, ErrorModel>(m),
{
    assert(Map::<Seq<char>, ExprModel>::empty().len() == 0);
}

/// Without numerical conversion, evaluation under a context never fails.
pub proof fn law_symbolic_evaluation_never_fails(
    m: ExprModel,
    vars: Map<Seq<char>, ExprModel>,
    simplify_first: bool,
)
    ensures
        spec_evaluate_in_context(m, vars, false, simplify_first) is Ok,
{
}

/// Zero raised to a negative number is a division by zero, both for exact
/// evaluation and for numerical evaluation.
pub proof fn law_zero_to_negative_power(
    base: NumberModel,
    exp: NumberModel,
    answers: Seq<(Seq<char>, ExprModel, bool)>,
)
    requires
        number_zero(base),
        number_negative(exp),
    ensures
        spec_evaluate(
            ExprModel::Pow(Box::new(ExprModel::Number(base)), Box::new(ExprModel::Number(exp))),
            answers,
        ) == Err::<ExprModel, ErrorModel>(ErrorModel::DivisionByZero),
        spec_eval_numeric(ExprModel::Pow(Box::new(ExprModel::Number(base)), Box::new(ExprModel::Number(exp))))
            == Err::<ExprModel, ErrorModel>(ErrorModel::DivisionByZero),
{
    let b = ExprModel::Number(base);
    let e = ExprModel::Number(exp);
    assert(spec_evaluate(b, answers) == Ok::<ExprModel, ErrorModel>(b));
    assert(spec_evaluate(e, answers) == Ok::<ExprModel, ErrorModel>(e));
    assert(spec_eval_numeric(b) == Ok::<ExprModel, ErrorModel>(b));
    assert(spec_eval_numeric(e) == Ok::<ExprModel, ErrorModel>(e));
    assert(is_zero_model(b) && is_negative_model(e));
}

/// `x` with its sign changed.
fn big_neg(x: &BigInteger) -> (r: BigInteger)
    ensures
        r@ == -x@,
{
    let minus_one = BigInteger::from_i64(-1);
    let r = big_mul(x, &minus_one);
    assert(r@ == x@ * (-1));
    r
}

/// `|x|`.
fn big_abs(x: &BigInteger) -> (r: BigInteger)
    ensures
        r@ == abs(x@),
{
    if x.is_negative() {
        big_neg(x)
    } else {
        x.duplicate()
    }
}

/// The magnitude bits of a double (see [`float_magnitude`]).
fn magnitude(b: u64) -> (r: u64)
    ensures
        r == float_magnitude(b),
{
    if b >= SIGN_BIT {
        b - SIGN_BIT
    } else {
        b
    }
}

/// Whether the expression is a number within `1e-10` of zero.
pub fn is_near_zero(e: &Expression) -> (r: bool)
    ensures
        r == near_zero(e@),
{
    match e {
        Expression::Number(Number::Integer(i)) => *i == 0,
        Expression::Number(Number::Float(b)) => magnitude(*b) < EPSILON_BITS,
        Expression::Number(Number::BigInteger(v)) => v.is_zero(),
        Expression::Number(Number::Rational(q)) => {
            let p = big_abs(&q.numer());
            let scaled = big_mul(&p, &BigInteger::from_i64(10_000_000_000));
            let diff = big_add(&scaled, &big_neg(&q.denom()));
            diff.is_negative()
        },
        _ => false,
    }
}

/// Whether the expression is a number outside `[-1, 1]`.
pub fn is_outside_unit(e: &Expression) -> (r: bool)
    ensures
        r == outside_unit(e@),
{
    match e {
        Expression::Number(Number::Integer(i)) => *i < -1 || *i > 1,
        Expression::Number(Number::Float(b)) => magnitude(*b) > ONE_BITS,
        Expression::Number(Number::BigInteger(v)) => match big_to_i64(v) {
            Some(i) => i < -1 || i > 1,
            None => true,
        },
        Expression::Number(Number::Rational(q)) => {
            let p = big_abs(&q.numer());
            let diff = big_add(&p, &big_neg(&q.denom()));
            !diff.is_negative() && !diff.is_zero()
        },
        _ => false,
    }
}

/// The domain error of `name` at the evaluated arguments `args`, if any (see
/// [`domain_error`]).
pub fn check_domain(name: &String, args: &Vec<Expression>, answers: &PoleAnswers) -> (r: Option<MathError>)
    ensures
        match r {
            Some(x) => domain_error(name@, view_seq(args@), answers@) == Some(x@),
            None => domain_error(name@, view_seq(args@), answers@) is None,
        },
{
    proof {
        lemma_view_seq(args@);
    }
    if args.len() == 0 {
        return None;
    }
    let a = &args[0];
    if name_is(name, "sqrt") {
        if is_negative_number(a) {
            Some(
                MathError::DomainError {
                    operation: "sqrt".to_owned(),
                    value: a.deep_clone(),
                    reason: "sqrt requires non-negative input in real domain".to_owned(),
                },
            )
        } else {
            None
        }
    } else if name_is(name, "log") || name_is(name, "ln") {
        if is_near_zero(a) {
            Some(MathError::Pole { function: name.clone(), at: a.deep_clone() })
        } else if is_negative_number(a) {
            Some(MathError::BranchCut { function: name.clone(), value: a.deep_clone() })
        } else {
            None
        }
    } else if name_is(name, "arcsin") || name_is(name, "asin") {
        if is_outside_unit(a) {
            Some(
                MathError::DomainError {
                    operation: "arcsin".to_owned(),
                    value: a.deep_clone(),
                    reason: "arcsin requires input in [-1, 1] in real domain".to_owned(),
                },
            )
        } else {
            None
        }
    } else if name_is(name, "arccos") || name_is(name, "acos") {
        if is_outside_unit(a) {
            Some(
                MathError::DomainError {
                    operation: "arccos".to_owned(),
                    value: a.deep_clone(),
                    reason: "arccos requires input in [-1, 1] in real domain".to_owned(),
                },
            )
        } else {
            None
        }
    } else if name_is(name, "tan") || name_is(name, "sec") || name_is(name, "csc") || name_is(name, "cot") {
        let tangent_like = name_is(name, "tan") || name_is(name, "sec");
        let pole = match a {
            Expression::Number(Number::Integer(n)) => Some(integer_is_pole_exec(tangent_like, *n)),
            Expression::Number(Number::Float(b)) => Some(float_is_pole_exec(tangent_like, *b)),
            Expression::Number(_) => if is_zero_number(a) {
                Some(!tangent_like)
            } else {
                None
            },
            _ => Some(false),
        };
        match pole {
            Some(true) => Some(MathError::Pole { function: name.clone(), at: a.deep_clone() }),
            Some(false) => None,
            None => answers.recorded_pole(name, a),
        }
    } else {
        None
    }
}

/// Recorded answers to whether a function has a pole at a number, as a
/// floating-point remainder by π decides it.
#[derive(Debug)]
pub struct PoleAnswers {
    entries: Vec<(String, Expression, bool)>,
}

impl View for PoleAnswers {
    type V = Seq<(Seq<char>, ExprModel, bool)>;

    closed spec fn view(&self) -> Seq<(Seq<char>, ExprModel, bool)> {
        Seq::new(self.entries@.len(), |i: int| (self.entries@[i].0@, self.entries@[i].1@, self.entries@[i].2))
    }
}

impl PoleAnswers {
    /// No answers.
    pub fn new() -> (r: PoleAnswers)
        ensures
            r@ == Seq::<(Seq<char>, ExprModel, bool)>::empty(),
    {
        let r = PoleAnswers { entries: Vec::new() };
        assert(r@ =~= Seq::<(Seq<char>, ExprModel, bool)>::empty());
        r
    }

    /// Records whether `function` has a pole at `at`.
    pub fn record(&mut self, function: String, at: Expression, pole: bool)
        ensures
            final(self)@ == old(self)@.push((function@, at@, pole)),
    {
        let ghost before = self@;
        let ghost entry = (function@, at@, pole);
        self.entries.push((function, at, pole));
        assert(self@ =~= before.push(entry));
    }

    /// The recorded answer for `function` at `at`, if any (see [`pole_answer`]).
    pub fn lookup(&self, function: &String, at: &Expression) -> (r: Option<bool>)
        ensures
            r == pole_answer(self@, function@, at@),
    {
        let ghost s = self@;
        let mut i: usize = 0;
        assert(s.subrange(0, s.len() as int) =~= s);
        while i < self.entries.len()
            invariant
                i <= self.entries.len(),
                s == self@,
                s.len() == self.entries.len(),
                pole_answer(s, function@, at@) == pole_answer(s.subrange(i as int, s.len() as int), function@, at@),
            decreases self.entries.len() - i,
        {
            let ghost sub = s.subrange(i as int, s.len() as int);
            assert(sub.drop_first() =~= s.subrange(i + 1, s.len() as int));
            assert(sub[0] == s[i as int]);
            if self.entries[i].0 == *function && self.entries[i].1.same(at) {
                return Some(self.entries[i].2);
            }
            i = i + 1;
        }
        None
    }

    /// The pole error the recorded answer gives, or the report that there is no
    /// answer (see [`recorded_pole`]).
    fn recorded_pole(&self, function: &String, at: &Expression) -> (r: Option<MathError>)
        ensures
            match r {
                Some(x) => recorded_pole(self@, function@, at@) == Some(x@),
                None => recorded_pole(self@, function@, at@) is None,
            },
    {
        match self.lookup(function, at) {
            Some(true) => Some(MathError::Pole { function: function.clone(), at: at.deep_clone() }),
            Some(false) => None,
            None => Some(
                MathError::DomainError {
                    operation: function.clone(),
                    value: at.deep_clone(),
                    reason: "the pole check needs floating-point arithmetic".to_owned(),
                },
            ),
        }
    }
}

/// Whether the error reports an argument whose pole check was not decided (see
/// [`unchecked_pole`]).
pub fn is_unchecked_pole(e: &MathError) -> (r: bool)
    ensures
        r == (e@ matches ErrorModel::DomainError { operation, value, reason } && reason
            == unchecked_reason()),
{
    match e {
        MathError::DomainError { reason, .. } => name_is(reason, "the pole check needs floating-point arithmetic"),
        _ => false,
    }
}

/// Evaluation of the members of `v`, in order.
fn evaluate_vec(v: &Vec<Expression>, answers: &PoleAnswers) -> (r: Result<Vec<Expression>, MathError>)
    ensures
        vec_result_model(r) == evaluate_seq(view_seq(v@), answers@),
    decreases v, 0nat,
{
    let ghost ts = view_seq(v@);
    proof {
        lemma_view_seq(v@);
    }
    let mut out: Vec<Expression> = Vec::new();
    proof {
        assert(ts.take(0) =~= Seq::<ExprModel>::empty());
        lemma_view_seq(out@);
        assert(view_seq(out@) =~= Seq::<ExprModel>::empty());
    }
    let mut i: usize = 0;
    while i < v.len()
        invariant
            i <= v.len(),
            ts == view_seq(v@),
            ts.len() == v.len(),
            forall|j: int| 0 <= j < v.len() ==> #[trigger] ts[j] == v@[j]@,
            out@.len() == i,
            evaluate_seq(ts.take(i as int), answers@) == Ok::<Seq<ExprModel>, ErrorModel>(view_seq(out@)),
        decreases v.len() - i,
    {
        proof {
            vstd::std_specs::vec::axiom_vec_index_decreases(*v, i as int);
            lemma_evaluate_seq_step(ts, i as int, answers@);
        }
        match v[i].evaluate_answered(answers) {
            Ok(x) => {
                let ghost before = out@;
                out.push(x);
                proof {
                    lemma_view_seq(out@);
                    lemma_view_seq(before);
                    assert(view_seq(out@) =~= view_seq(before).push(out@[i as int]@));
                }
            },
            Err(x) => {
                proof {
                    lemma_evaluate_seq_err(ts, i + 1, answers@);
                }
                return Err(x);
            },
        }
        i = i + 1;
    }
    assert(ts.take(v.len() as int) =~= ts);
    Ok(out)
}

/// Evaluation under a context: the variables of `vars` substituted (when there
/// are any), then simplified when `simplify_first`, then converted numerically
/// when `numeric`.
pub open spec fn spec_evaluate_in_context(
    m: ExprModel,
    vars: Map<Seq<char>, ExprModel>,
    numeric: bool,
    simplify_first: bool,
) -> Result<ExprModel, ErrorModel> {
    let substituted = if vars.len() == 0 {
        m
    } else {
        spec_substitute(m, vars)
    };
    let simplified = if simplify_first {
        spec_simplify(substituted)
    } else {
        substituted
    };
    if numeric {
        spec_eval_numeric(simplified)
    } else {
        Ok(simplified)
    }
}

impl Expression {
    /// Exact evaluation with domain checks (see [`spec_evaluate`]), with no
    /// recorded pole answers: an argument of `tan`, `sec`, `csc` or `cot` whose
    /// pole check needs floating-point arithmetic is reported as unchecked.
    pub fn evaluate(&self) -> (r: Result<Expression, MathError>)
        ensures
            result_model(r) == spec_evaluate(self@, Seq::empty()),
    {
        self.evaluate_answered(&PoleAnswers::new())
    }

    /// Exact evaluation with domain checks (see [`spec_evaluate`]), the poles of
    /// `tan`, `sec`, `csc` and `cot` at numbers other than zero being read from
    /// `answers`.
    ///
    /// The checks compare exact values, and floating-point numbers by their
    /// bit patterns.
    pub fn evaluate_answered(&self, answers: &PoleAnswers) -> (r: Result<Expression, MathError>)
        ensures
            result_model(r) == spec_evaluate(self@, answers@),
        decreases self, 1nat,
    {
        match self {
            Expression::Add(ts) => match evaluate_vec(ts, answers) {
                Ok(vs) => Ok(Expression::add(vs).simplify()),
                Err(x) => Err(x),
            },
            Expression::Mul(ts) => match evaluate_vec(ts, answers) {
                Ok(vs) => Ok(Expression::mul(vs).simplify()),
                Err(x) => Err(x),
            },
            Expression::Pow(b, e) => {
                let bv = match b.evaluate_answered(answers) {
                    Ok(v) => v,
                    Err(x) => {
                        return Err(x);
                    },
                };
                let ev = match e.evaluate_answered(answers) {
                    Ok(v) => v,
                    Err(x) => {
                        return Err(x);
                    },
                };
                if is_zero_number(&bv) && is_negative_number(&ev) {
                    return Err(MathError::DivisionByZero);
                }
                Ok(Expression::pow(bv, ev).simplify())
            },
            Expression::Function { name, args } => {
                if name_is(name, "undefined") {
                    return Err(MathError::DivisionByZero);
                }
                let a = match evaluate_vec(args, answers) {
                    Ok(a) => a,
                    Err(x) => {
                        return Err(x);
                    },
                };
                if let Some(x) = check_domain(name, &a, answers) {
                    return Err(x);
                }
                match evaluate_function_dispatch(name, &a) {
                    Some(v) => Ok(v),
                    None => Ok(Expression::Function { name: name.clone(), args: a }.simplify()),
                }
            },
            _ => Ok(self.simplify()),
        }
    }

    /// Evaluation under `context` (see [`spec_evaluate_in_context`]).
    pub fn evaluate_with_context(&self, context: &EvalContext) -> (r: Result<Expression, MathError>)
        ensures
            result_model(r) == spec_evaluate_in_context(
                self@,
                context.variables@,
                context.numeric,
                context.simplify_first,
            ),
    {
        let substituted = if context.variables.is_empty() {
            self.deep_clone()
        } else {
            self.substitute(&context.variables)
        };
        let simplified = if context.simplify_first {
            substituted.simplify()
        } else {
            substituted
        };
        if context.numeric {
            simplified.eval_numeric(context.precision)
        } else {
            Ok(simplified)
        }
    }
}

} // verus!
