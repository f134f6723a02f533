//! Scenarios and laws of the library on concrete values.

use mathhook_core::bigint::{BigInteger, Rational};
use mathhook_core::error::MathError;
use mathhook_core::eval_numeric::{EvalContext, EvalNumeric};
use mathhook_core::evaluation::{is_unchecked_pole, PoleAnswers};
use mathhook_core::expr::{Expression, RelationType, Symbol};
use mathhook_core::number::{is_number_negative, Number};
use mathhook_core::subst::VarMap;

fn var(name: &str) -> Expression {
    Expression::symbol(Symbol::new(name))
}

fn num(n: i64) -> Expression {
    Expression::integer(n)
}

fn func(name: &str, arg: Expression) -> Expression {
    Expression::function(name, vec![arg])
}

fn ratio(n: i64, d: i64) -> Expression {
    let q = Rational::new(&BigInteger::from_i64(n), &BigInteger::from_i64(d)).unwrap();
    Expression::Number(Number::Rational(q))
}

fn float(x: f64) -> Expression {
    Expression::float_bits(x.to_bits())
}

fn quad(a: i64, b: i64, c: i64) -> Expression {
    let mut terms = vec![];
    let sq = Expression::pow(var("x"), num(2));
    terms.push(if a == 1 { sq } else { Expression::mul(vec![num(a), sq]) });
    if b != 0 {
        terms.push(Expression::mul(vec![num(b), var("x")]));
    }
    if c != 0 {
        terms.push(num(c));
    }
    Expression::add(terms)
}

#[test]
fn add_folds_integer_constants_after_the_other_terms() {
    let e = Expression::add(vec![num(2), var("x"), num(3)]);
    assert_eq!(e, Expression::Add(vec![var("x"), num(5)]));
    assert_eq!(Expression::add(vec![num(2), num(-2)]), num(0));
    assert_eq!(Expression::add(vec![var("x")]), var("x"));
}

#[test]
fn add_past_the_machine_range_gives_a_big_integer() {
    let e = Expression::add(vec![num(i64::MAX), num(1)]);
    match e {
        Expression::Number(Number::BigInteger(ref b)) => assert!(!b.is_negative()),
        _ => panic!("expected a big integer, got {:?}", e),
    }
    let back = Expression::add(vec![e, num(-1)]);
    assert_eq!(back, num(i64::MAX));
}

#[test]
fn mul_puts_the_coefficient_first_and_zero_absorbs() {
    assert_eq!(Expression::mul(vec![var("x"), num(2), num(3)]), Expression::Mul(vec![num(6), var("x")]));
    assert_eq!(Expression::mul(vec![var("x"), num(0)]), num(0));
    assert_eq!(Expression::mul(vec![num(1), var("x")]), var("x"));
}

#[test]
fn pow_collapses_exponents_zero_and_one() {
    assert_eq!(Expression::pow(var("x"), num(0)), num(1));
    assert_eq!(Expression::pow(var("x"), num(1)), var("x"));
}

#[test]
fn simplify_computes_integer_powers_that_fit() {
    assert_eq!(Expression::pow(num(2), num(10)).simplify(), num(1024));
    assert_eq!(Expression::pow(num(-1), num(5)).simplify(), num(-1));
    assert_eq!(Expression::pow(num(-2), num(63)).simplify(), num(i64::MIN));
    let too_big = Expression::pow(num(2), num(63));
    assert_eq!(too_big.simplify(), too_big);
    let sum = Expression::add(vec![var("x"), Expression::pow(num(2), num(2)), num(3)]);
    assert_eq!(sum.simplify(), Expression::Add(vec![var("x"), num(7)]));
}

#[test]
fn special_function_values() {
    assert_eq!(func("cos", num(0)).simplify(), num(1));
    assert_eq!(func("ln", num(1)).simplify(), num(0));
    assert_eq!(func("sqrt", num(1)).simplify(), num(1));
    assert_eq!(func("abs", num(-5)).simplify(), num(5));
    let sin_one = func("sin", num(1));
    assert_eq!(sin_one.simplify(), sin_one);
}

#[test]
fn var_map_insert_replaces_an_earlier_binding() {
    let mut vars = VarMap::new();
    assert!(vars.is_empty());
    vars.insert("x".to_string(), num(1));
    vars.insert("x".to_string(), num(2));
    assert_eq!(vars.len(), 1);
    assert_eq!(vars.get(&"x".to_string()), Some(&num(2)));
    assert_eq!(vars.get(&"y".to_string()), None);
}

#[test]
fn substitution_preserves_the_value_of_a_polynomial() {
    // p = x^2 + 2*x + 1 with x = 3 is 16, whether substituted then simplified
    // or evaluated under a numeric context.
    let p = Expression::add(vec![
        Expression::pow(var("x"), num(2)),
        Expression::mul(vec![num(2), var("x")]),
        num(1),
    ]);
    let mut vars = VarMap::new();
    vars.insert("x".to_string(), num(3));
    assert_eq!(p.substitute(&vars).simplify(), num(16));
    let ctx = EvalContext::numeric(vars);
    assert_eq!(p.evaluate_with_context(&ctx).unwrap(), num(16));
}

#[test]
fn substitution_of_a_polynomial_into_a_polynomial() {
    // (x + 1)·(x − 1) with x = y + 1 expands to y² + 2y.
    let p = Expression::mul(vec![
        Expression::add(vec![var("x"), num(1)]),
        Expression::add(vec![var("x"), num(-1)]),
    ]);
    let mut vars = VarMap::new();
    vars.insert("x".to_string(), Expression::add(vec![var("y"), num(1)]));
    let substituted = p.substitute(&vars);
    let expected = Expression::add(vec![
        Expression::pow(var("y"), num(2)),
        Expression::mul(vec![num(2), var("y")]),
    ]);
    assert_eq!(substituted.expand(), expected);
}

#[test]
fn symbolic_context_returns_the_expression() {
    let e = Expression::add(vec![func("sin", var("x")), Expression::pow(num(2), num(3))]);
    assert_eq!(e.evaluate_with_context(&EvalContext::symbolic()).unwrap(), e);
    assert_eq!(e.evaluate_with_context(&EvalContext::default()).unwrap(), e);
}

#[test]
fn evaluate_scenarios() {
    assert_eq!(Expression::add(vec![num(2), num(3)]).evaluate().unwrap(), num(5));
    assert_eq!(Expression::mul(vec![num(2), num(3), num(4)]).evaluate().unwrap(), num(24));
    assert_eq!(func("sin", num(0)).evaluate().unwrap(), num(0));
    let x_plus_one = Expression::add(vec![var("x"), num(1)]);
    assert_eq!(x_plus_one.evaluate().unwrap(), x_plus_one.simplify());
    let power = Expression::pow(Expression::add(vec![num(1), num(2)]), num(2));
    assert_eq!(power.evaluate().unwrap(), num(9));
}

#[test]
fn evaluate_sqrt_of_a_negative_number_is_a_domain_error() {
    for arg in [num(-1), ratio(-1, 2), float(-2.0)] {
        match func("sqrt", arg.clone()).evaluate() {
            Err(MathError::DomainError { operation, value, reason }) => {
                assert_eq!(operation, "sqrt");
                assert_eq!(value, arg);
                assert_eq!(reason, "sqrt requires non-negative input in real domain");
            }
            other => panic!("expected a domain error, got {:?}", other),
        }
    }
    assert_eq!(func("sqrt", num(4)).evaluate().unwrap(), func("sqrt", num(4)));
}

#[test]
fn evaluate_log_at_zero_is_a_pole_and_below_zero_a_branch_cut() {
    for arg in [num(0), ratio(1, 100_000_000_000), float(1e-11), float(-0.0)] {
        match func("log", arg.clone()).evaluate() {
            Err(MathError::Pole { function, at }) => {
                assert_eq!(function, "log");
                assert_eq!(at, arg);
            }
            other => panic!("expected a pole, got {:?}", other),
        }
    }
    for arg in [num(-2), ratio(-1, 3), float(-0.5)] {
        match func("ln", arg.clone()).evaluate() {
            Err(MathError::BranchCut { function, value }) => {
                assert_eq!(function, "ln");
                assert_eq!(value, arg);
            }
            other => panic!("expected a branch cut, got {:?}", other),
        }
    }
    assert!(func("log", ratio(1, 1_000)).evaluate().is_ok());
}

#[test]
fn evaluate_arcsin_and_arccos_outside_the_unit_interval_are_domain_errors() {
    for (name, operation) in [("arcsin", "arcsin"), ("asin", "arcsin"), ("arccos", "arccos"), ("acos", "arccos")] {
        for arg in [num(2), num(-2), ratio(3, 2), float(1.5), float(f64::NAN)] {
            match func(name, arg.clone()).evaluate() {
                Err(MathError::DomainError { operation: op, value, .. }) => {
                    assert_eq!(op, operation);
                    assert_eq!(value, arg);
                }
                other => panic!("expected a domain error, got {:?}", other),
            }
        }
        for arg in [num(1), num(-1), ratio(1, 2), float(0.5)] {
            assert!(func(name, arg).evaluate().is_ok());
        }
    }
}

#[test]
fn evaluate_csc_and_cot_at_zero_are_poles() {
    for name in ["csc", "cot"] {
        match func(name, num(0)).evaluate() {
            Err(MathError::Pole { function, at }) => {
                assert_eq!(function, name);
                assert_eq!(at, num(0));
            }
            other => panic!("expected a pole, got {:?}", other),
        }
    }
    assert_eq!(func("tan", num(0)).evaluate().unwrap(), num(0));
    assert_eq!(func("sec", var("x")).evaluate().unwrap(), func("sec", var("x")));
}

#[test]
fn trigonometric_poles_at_integers_and_doubles_are_decided_exactly() {
    let is_pole = |name: &str, arg: Expression| match func(name, arg.clone()).evaluate() {
        Err(MathError::Pole { function, at }) => {
            assert_eq!(function, name);
            assert_eq!(at, arg);
            true
        }
        Ok(_) => false,
        Err(other) => panic!("unexpected error {:?}", other),
    };
    assert!(!is_pole("tan", num(1)));
    assert!(!is_pole("sec", num(-7)));
    assert!(!is_pole("csc", num(355)));
    assert!(is_pole("tan", float(std::f64::consts::FRAC_PI_2)));
    assert!(is_pole("sec", float(3.0 * std::f64::consts::FRAC_PI_2)));
    assert!(is_pole("csc", float(std::f64::consts::PI)));
    assert!(is_pole("csc", float(-std::f64::consts::PI)));
    assert!(is_pole("cot", float(-0.0)));
    assert!(!is_pole("tan", float(1.0)));
    assert!(!is_pole("tan", float(f64::NAN)));
    assert!(!is_pole("csc", float(f64::INFINITY)));
    // integers whose double lies within 1e-10 of a pole of the double nearest π
    assert!(is_pole("tan", num(16_316_570_207)));
    assert!(is_pole("tan", num(-16_316_570_207)));
    assert!(!is_pole("tan", num(16_316_570_206)));
    assert!(is_pole("csc", num(9_978_066_541)));
    assert!(!is_pole("csc", num(-9_978_066_541)));
    // a pole only after the rounding of the integer to the nearest double
    assert!(is_pole("csc", num(24_759_832_132_099_539)));
    assert!(!is_pole("tan", num(i64::MAX)));
    assert!(!is_pole("csc", num(i64::MIN)));
}

#[test]
fn trigonometric_poles_at_fractions_are_read_from_the_answers() {
    let half = ratio(1, 2);
    let tan = func("tan", half.clone());
    match tan.evaluate() {
        Err(e) => {
            assert!(is_unchecked_pole(&e));
            match e {
                MathError::DomainError { operation, value, .. } => {
                    assert_eq!(operation, "tan");
                    assert_eq!(value, half);
                }
                other => panic!("expected a domain error, got {:?}", other),
            }
        }
        Ok(r) => panic!("expected an unchecked argument, got {:?}", r),
    }
    let mut answers = PoleAnswers::new();
    answers.record("tan".to_string(), half.clone(), true);
    match tan.evaluate_answered(&answers) {
        Err(MathError::Pole { function, at }) => {
            assert_eq!(function, "tan");
            assert_eq!(at, half);
        }
        other => panic!("expected a pole, got {:?}", other),
    }
    let mut no_pole = PoleAnswers::new();
    no_pole.record("tan".to_string(), half.clone(), false);
    assert_eq!(tan.evaluate_answered(&no_pole).unwrap(), tan);
    assert_eq!(no_pole.lookup(&"tan".to_string(), &half), Some(false));
    assert_eq!(no_pole.lookup(&"cot".to_string(), &half), None);
    let csc_one = func("csc", num(1));
    assert_eq!(csc_one.evaluate_answered(&no_pole).unwrap(), csc_one);
    assert!(!is_unchecked_pole(&MathError::DivisionByZero));
}

#[test]
fn evaluate_division_by_zero() {
    let undefined = func("undefined", var("x"));
    assert_eq!(undefined.evaluate(), Err(MathError::DivisionByZero));
    let one_over_zero = Expression::mul(vec![num(1), Expression::pow(num(0), num(-1))]);
    assert_eq!(one_over_zero.evaluate(), Err(MathError::DivisionByZero));
    let nested = Expression::add(vec![var("y"), Expression::pow(num(0), ratio(-1, 2))]);
    assert_eq!(nested.evaluate(), Err(MathError::DivisionByZero));
}

#[test]
fn eval_numeric_of_named_constants() {
    let phi = Expression::Constant(mathhook_core::expr::MathConstant::GoldenRatio);
    assert_eq!(phi.eval_numeric(53).unwrap(), float((1.0 + 5f64.sqrt()) / 2.0));
    let inf = Expression::Constant(mathhook_core::expr::MathConstant::Infinity);
    assert_eq!(inf.eval_numeric(53).unwrap(), inf);
}

#[test]
fn eval_numeric_zero_to_a_negative_float_fails() {
    let e = Expression::pow(float(0.0), float(-2.5));
    assert_eq!(e.eval_numeric(53), Err(MathError::DivisionByZero));
    let fine = Expression::pow(float(0.0), float(2.5));
    assert_eq!(fine.eval_numeric(53).unwrap(), fine);
}

#[test]
fn numbers_below_zero() {
    let neg_half = Rational::new(&BigInteger::from_i64(-1), &BigInteger::from_i64(2)).unwrap();
    assert!(is_number_negative(&Number::Rational(neg_half)));
    assert!(is_number_negative(&Number::Float((-1.5f64).to_bits())));
    assert!(!is_number_negative(&Number::Float((-0.0f64).to_bits())));
    assert!(!is_number_negative(&Number::Float(f64::NAN.to_bits())));
    assert!(is_number_negative(&Number::Integer(-3)));
    assert!(!is_number_negative(&Number::BigInteger(BigInteger::from_i64(0))));
}

#[test]
fn rationals_are_kept_in_lowest_terms() {
    assert_eq!(ratio(2, 4), ratio(1, 2));
    assert_eq!(ratio(3, -6), ratio(-1, 2));
    assert!(Rational::new(&BigInteger::from_i64(1), &BigInteger::from_i64(0)).is_none());
}

#[test]
fn factor_takes_out_a_common_monomial() {
    let p = Expression::add(vec![
        Expression::pow(var("x"), num(2)),
        Expression::mul(vec![num(-1), var("x")]),
    ]);
    let expected = Expression::Mul(vec![var("x"), Expression::Add(vec![var("x"), num(-1)])]);
    assert_eq!(p.factor(), expected);
    assert_eq!(p.factor().expand(), p);
}

#[test]
fn factor_declines_a_common_factor_that_does_not_divide_exactly() {
    // 4x + 6x: the shared 2·x does not divide 4x term by term, so nothing is
    // factored rather than a wrong product.
    let p = Expression::add(vec![
        Expression::mul(vec![num(4), var("x")]),
        Expression::mul(vec![num(6), var("x")]),
    ]);
    assert_eq!(p.factor(), p);
}

#[test]
fn factor_non_monic_quadratics_expand_back() {
    for p in [quad(4, 0, -1), quad(2, 10, 12), quad(6, 1, -1)] {
        let f = p.factor();
        assert!(matches!(f, Expression::Mul(_)), "expected a product, got {:?}", f);
        assert_eq!(f.expand(), p);
    }
    let f = quad(4, 0, -1).factor();
    let expected = Expression::Mul(vec![
        Expression::Add(vec![Expression::Mul(vec![num(2), var("x")]), num(-1)]),
        Expression::Add(vec![Expression::Mul(vec![num(2), var("x")]), num(1)]),
    ]);
    assert_eq!(f, expected);
}

#[test]
fn difference_of_squares_expands_to_the_difference() {
    let x = var("x");
    let p = x.factor_difference_of_squares(&x, &num(3));
    let expected = Expression::Mul(vec![
        Expression::Add(vec![var("x"), num(3)]),
        Expression::Add(vec![var("x"), num(-3)]),
    ]);
    assert_eq!(p, expected);
    assert_eq!(p.expand(), Expression::add(vec![Expression::pow(var("x"), num(2)), num(-9)]));
}

#[test]
fn perfect_square_trinomials_factor_into_squares() {
    let any = var("x");
    let terms = vec![Expression::pow(var("x"), num(2)), Expression::mul(vec![num(2), var("x")]), num(1)];
    let square = Expression::pow(Expression::add(vec![var("x"), num(1)]), num(2));
    assert_eq!(any.factor_perfect_square(&terms), Some(square.clone()));
    let minus = vec![Expression::pow(var("x"), num(2)), Expression::mul(vec![num(-6), var("x")]), num(9)];
    let expected = Expression::pow(Expression::add(vec![var("x"), num(-3)]), num(2));
    assert_eq!(any.factor_perfect_square(&minus), Some(expected));
    let scaled = vec![
        Expression::mul(vec![num(4), Expression::pow(var("x"), num(2))]),
        Expression::mul(vec![num(4), var("x")]),
        num(1),
    ];
    let expected = Expression::pow(
        Expression::add(vec![Expression::mul(vec![num(2), var("x")]), num(1)]),
        num(2),
    );
    assert_eq!(any.factor_perfect_square(&scaled), Some(expected));
    let not_square = vec![Expression::pow(var("x"), num(2)), Expression::mul(vec![num(3), var("x")]), num(1)];
    assert_eq!(any.factor_perfect_square(&not_square), None);
    assert_eq!(any.factor_perfect_square(&terms[..2]), None);
}

#[test]
fn division_by_a_factor() {
    let any = num(0);
    assert_eq!(any.divide_by_factor(&Expression::pow(var("x"), num(3)), &var("x")), Expression::pow(var("x"), num(2)));
    assert_eq!(any.divide_by_factor(&Expression::mul(vec![num(2), var("x")]), &var("x")), num(2));
    assert_eq!(any.divide_by_factor(&num(6), &num(-3)), num(-2));
    assert_eq!(any.divide_by_factor(&num(7), &num(2)), num(7));
    let two_x_squared = Expression::mul(vec![num(2), Expression::pow(var("x"), num(2))]);
    let two_x = Expression::mul(vec![num(2), var("x")]);
    assert_eq!(any.divide_by_factor(&two_x_squared, &two_x), var("x"));
    assert!(any.divides_exactly(&two_x_squared, &two_x));
    assert!(!any.divides_exactly(&Expression::mul(vec![num(4), var("x")]), &two_x));
    assert!(any.divide_overflows(&num(i64::MIN), &num(-1)));
}

#[test]
fn common_factor_of_terms() {
    let any = num(0);
    let terms = vec![
        Expression::mul(vec![num(4), var("x")]),
        Expression::mul(vec![num(6), var("x")]),
    ];
    assert_eq!(any.find_common_factor_in_terms(&terms), Expression::Mul(vec![num(2), var("x")]));
    assert_eq!(any.find_common_factor_in_terms(&[]), num(1));
    let coprime = vec![var("x"), var("y")];
    assert_eq!(any.find_common_factor_in_terms(&coprime), num(1));
}

#[test]
fn common_factor_divides_every_term() {
    let any = num(0);
    let shared_two = vec![
        Expression::mul(vec![num(2), var("x")]),
        Expression::mul(vec![num(2), var("y")]),
    ];
    assert_eq!(any.find_common_factor_in_terms(&shared_two), num(2));
    let repeated = vec![Expression::Mul(vec![var("x"), var("x")]), var("x")];
    assert_eq!(any.find_common_factor_in_terms(&repeated), var("x"));
    let both = vec![
        Expression::Mul(vec![num(6), var("x"), var("x")]),
        Expression::Mul(vec![num(4), var("x"), var("y")]),
    ];
    assert_eq!(any.find_common_factor_in_terms(&both), Expression::Mul(vec![num(2), var("x")]));
}

#[test]
fn numeric_coefficient_times_the_rest_is_the_expression() {
    let e = Expression::mul(vec![num(6), var("x"), var("y")]);
    let (c, rest) = e.factor_numeric_coefficient();
    assert_eq!(Expression::big_integer(c), num(6));
    assert_eq!(rest, Expression::Mul(vec![var("x"), var("y")]));
    let (c, rest) = var("z").factor_numeric_coefficient();
    assert_eq!(Expression::big_integer(c), num(1));
    assert_eq!(rest, var("z"));
}

#[test]
fn expand_collects_like_terms() {
    let e = Expression::mul(vec![
        Expression::add(vec![var("x"), num(2)]),
        Expression::add(vec![var("x"), num(3)]),
    ]);
    let expected = Expression::add(vec![
        Expression::pow(var("x"), num(2)),
        Expression::mul(vec![num(5), var("x")]),
        num(6),
    ]);
    assert_eq!(e.expand(), expected);
    let cancel = Expression::add(vec![var("x"), Expression::mul(vec![num(-1), var("x")])]);
    assert_eq!(cancel.expand(), num(0));
}

#[test]
fn big_integer_coefficients_are_read_as_integers() {
    // x² + (−1 held as a big integer) still factors as (x − 1)(x + 1).
    let minus_one = Expression::Number(Number::BigInteger(BigInteger::from_i64(-1)));
    let p = Expression::Add(vec![Expression::pow(var("x"), num(2)), minus_one]);
    let expected = Expression::Mul(vec![
        Expression::Add(vec![var("x"), num(-1)]),
        Expression::Add(vec![var("x"), num(1)]),
    ]);
    assert_eq!(p.factor(), expected);
}

#[test]
fn structural_equality_of_expressions() {
    let big = Expression::Number(Number::BigInteger(BigInteger::from_i64(7)));
    let same_big = Expression::Number(Number::BigInteger(BigInteger::from_i64(7)));
    let other_big = Expression::Number(Number::BigInteger(BigInteger::from_i64(8)));
    assert!(big.same(&same_big));
    assert!(!big.same(&other_big));
    assert!(!big.same(&num(7)));
    let e = Expression::add(vec![var("x"), func("sin", var("y"))]);
    assert!(e.same(&e.clone()));
}

#[test]
fn numeric_evaluation_does_not_depend_on_precision() {
    let e = Expression::add(vec![Expression::pi(), var("x"), Expression::pow(num(0), num(3))]);
    assert_eq!(e.eval_numeric(10).unwrap(), e.eval_numeric(200).unwrap());
    let mut vars = VarMap::new();
    vars.insert("x".to_string(), num(1));
    let low = EvalContext::numeric(vars.clone()).with_precision(8);
    let high = EvalContext::numeric(vars).with_precision(512);
    assert_eq!(e.evaluate_with_context(&low).unwrap(), e.evaluate_with_context(&high).unwrap());
}

#[test]
fn context_clone_keeps_every_setting() {
    let mut vars = VarMap::new();
    vars.insert("x".to_string(), num(1));
    let ctx = EvalContext::numeric(vars).with_precision(99).with_simplify(false);
    let copy = ctx.clone();
    assert_eq!(copy.precision, 99);
    assert!(copy.numeric);
    assert!(!copy.simplify_first);
    assert_eq!(copy.variables.get(&"x".to_string()), Some(&num(1)));
}

fn quad_terms(a: i64, b: i64, c: i64) -> Vec<Expression> {
    match quad(a, b, c) {
        Expression::Add(terms) => terms,
        other => vec![other],
    }
}

#[test]
fn quadratics_with_a_square_discriminant_factor() {
    let any = num(0);
    for (a, b, c) in [(6, 5, 1), (1, 0, -1), (4, 4, 1), (2, 10, 12), (-3, 7, -2), (1, -1, 0)] {
        let terms = quad_terms(a, b, c);
        let f = any.try_quadratic_factoring(&terms);
        assert!(f.is_some(), "{}x^2 + {}x + {} should factor", a, b, c);
    }
    for (a, b, c) in [(1, 1, 1), (1, 0, 2), (2, 3, 2), (1, 0, -2)] {
        assert_eq!(any.try_quadratic_factoring(&quad_terms(a, b, c)), None);
    }
}

#[test]
fn evaluate_returns_the_first_failure() {
    let bad_sqrt = func("sqrt", num(-1));
    let bad_log = func("log", num(0));
    let is_sqrt_error = |r: Result<Expression, MathError>| {
        matches!(r, Err(MathError::DomainError { operation, .. }) if operation == "sqrt")
    };
    let is_log_pole = |r: Result<Expression, MathError>| {
        matches!(r, Err(MathError::Pole { function, .. }) if function == "log")
    };
    assert!(is_sqrt_error(Expression::Add(vec![var("x"), bad_sqrt.clone(), bad_log.clone()]).evaluate()));
    assert!(is_log_pole(Expression::Mul(vec![num(2), bad_log.clone(), bad_sqrt.clone()]).evaluate()));
    assert!(is_sqrt_error(func("sin", bad_sqrt.clone()).evaluate()));
    assert!(is_log_pole(Expression::pow(bad_log.clone(), bad_sqrt.clone()).evaluate()));
    assert!(is_sqrt_error(Expression::pow(num(2), bad_sqrt.clone()).evaluate()));
}

#[test]
fn eval_numeric_rebuilds_sets_complex_numbers_intervals_and_relations() {
    let three = Expression::Add(vec![num(1), num(2)]);
    let set = Expression::set(vec![three.clone(), var("x")]);
    assert_eq!(set.eval_numeric(53).unwrap(), Expression::set(vec![num(3), var("x")]));
    let z = Expression::complex(three.clone(), num(4));
    assert_eq!(z.eval_numeric(53).unwrap(), Expression::complex(num(3), num(4)));
    let iv = Expression::interval(three.clone(), var("x"), true, false);
    assert_eq!(iv.eval_numeric(53).unwrap(), Expression::interval(num(3), var("x"), true, false));
    let rel = Expression::relation(var("y"), three, RelationType::LessEqual);
    assert_eq!(rel.eval_numeric(53).unwrap(), Expression::relation(var("y"), num(3), RelationType::LessEqual));
}

#[test]
fn a_changed_quotient_times_the_factor_gives_the_expression_back() {
    let any = num(0);
    let e = Expression::mul(vec![num(3), var("x")]);
    let q = any.divide_by_factor(&e, &var("x"));
    assert_ne!(q, e);
    assert_eq!(Expression::mul(vec![q, var("x")]), e);
    let cube = Expression::pow(var("x"), num(3));
    let q = any.divide_by_factor(&cube, &Expression::pow(var("x"), num(2)));
    assert_eq!(q, var("x"));
    assert_eq!(Expression::mul(vec![q, Expression::pow(var("x"), num(2))]).expand(), cube.expand());
    assert_eq!(any.divide_by_factor(&num(9), &num(2)), num(9));
}
