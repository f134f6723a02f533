//! Evaluation: substitution, simplification and numerical conversion.

use mathhook_core::error::MathError;
use mathhook_core::eval_numeric::{EvalContext, EvalNumeric};
use mathhook_core::expr::{Expression, RelationType, Symbol};
use mathhook_core::subst::VarMap;

fn var(name: &str) -> Expression {
    Expression::symbol(Symbol::new(name))
}

fn num(n: i64) -> Expression {
    Expression::integer(n)
}

fn float(x: f64) -> Expression {
    Expression::float_bits(x.to_bits())
}

#[test]
fn test_symbolic_context() {
    let e = Expression::add(vec![var("x"), var("y")]);

    let ctx = EvalContext::symbolic();
    let result = e.evaluate_with_context(&ctx).unwrap();

    assert_eq!(result, e);
}

#[test]
fn test_numeric_context_with_substitution() {
    let e = Expression::add(vec![var("x"), var("y")]);

    let mut vars = VarMap::new();
    vars.insert("x".to_string(), num(3));
    vars.insert("y".to_string(), num(4));

    let ctx = EvalContext::numeric(vars);
    let result = e.evaluate_with_context(&ctx).unwrap();

    assert_eq!(result, num(7));
}

#[test]
fn test_substitute_simple() {
    let e = Expression::pow(var("x"), num(2));

    let mut subs = VarMap::new();
    subs.insert("x".to_string(), num(3));

    let result = e.substitute(&subs);
    assert_eq!(result, Expression::pow(num(3), num(2)));
}

#[test]
fn test_substitute_multiple_variables() {
    let e = Expression::add(vec![
        Expression::pow(var("x"), num(2)),
        Expression::mul(vec![num(2), var("y")]),
    ]);

    let mut subs = VarMap::new();
    subs.insert("x".to_string(), num(3));
    subs.insert("y".to_string(), num(5));

    let result = e.substitute(&subs);
    let expected = Expression::add(vec![
        Expression::pow(num(3), num(2)),
        Expression::mul(vec![num(2), num(5)]),
    ]);
    assert_eq!(result, expected);
}

#[test]
fn test_substitute_nested() {
    let e = Expression::function("sin", vec![Expression::pow(var("x"), num(2))]);

    let mut subs = VarMap::new();
    subs.insert("x".to_string(), num(3));

    let result = e.substitute(&subs);
    let expected = Expression::function("sin", vec![Expression::pow(num(3), num(2))]);
    assert_eq!(result, expected);
}

#[test]
fn test_evaluate_with_context_with_simplification() {
    let e = Expression::pow(var("x"), num(2));

    let mut vars = VarMap::new();
    vars.insert("x".to_string(), num(3));

    let ctx = EvalContext::numeric(vars).with_simplify(true);
    let result = e.evaluate_with_context(&ctx).unwrap();

    assert_eq!(result, num(9));
}

#[test]
fn test_evaluate_with_context_precision() {
    let e = Expression::pow(var("x"), num(2));

    let mut vars = VarMap::new();
    vars.insert("x".to_string(), num(3));

    let ctx = EvalContext::numeric(vars).with_precision(128);
    let result = e.evaluate_with_context(&ctx).unwrap();

    assert_eq!(ctx.precision, 128);
    assert_eq!(result, num(9));
}

#[test]
fn test_substitute_no_match() {
    let e = Expression::pow(var("x"), num(2));

    let mut subs = VarMap::new();
    subs.insert("y".to_string(), num(3));

    let result = e.substitute(&subs);
    assert_eq!(result, e);
}

#[test]
fn test_substitute_complex_expression() {
    let e = Expression::complex(var("x"), var("y"));

    let mut subs = VarMap::new();
    subs.insert("x".to_string(), num(2));
    subs.insert("y".to_string(), num(3));

    let result = e.substitute(&subs);
    let expected = Expression::complex(num(2), num(3));
    assert_eq!(result, expected);
}

#[test]
fn test_symbolic_evaluation_no_substitution() {
    let e = Expression::pow(var("x"), num(2));

    let ctx = EvalContext::symbolic();
    let result = e.evaluate_with_context(&ctx).unwrap();

    assert_eq!(result, Expression::pow(var("x"), num(2)));
}

#[test]
fn test_numerical_evaluation_with_simplify_disabled() {
    let e = Expression::add(vec![var("x"), var("x")]);

    let mut vars = VarMap::new();
    vars.insert("x".to_string(), num(5));

    let ctx = EvalContext::numeric(vars).with_simplify(false);
    let result = e.evaluate_with_context(&ctx).unwrap();

    assert_eq!(result, num(10));
}

#[test]
fn test_eval_numeric_number_returns_self() {
    let num = num(42);
    let result = num.eval_numeric(53).unwrap();
    assert_eq!(result, num);
}

#[test]
fn test_eval_numeric_symbol_returns_self() {
    let x = Symbol::new("x");
    let sym_expr = Expression::symbol(x);
    let result = sym_expr.eval_numeric(53).unwrap();
    assert_eq!(result, sym_expr);
}

#[test]
fn test_eval_numeric_constant_pi() {
    let pi = Expression::pi();
    let result = pi.eval_numeric(53).unwrap();

    assert_eq!(result, float(std::f64::consts::PI));
}

#[test]
fn test_eval_numeric_constant_e() {
    let e = Expression::e();
    let result = e.eval_numeric(53).unwrap();

    assert_eq!(result, float(std::f64::consts::E));
}

#[test]
fn test_eval_numeric_constant_i_remains_symbolic() {
    let i = Expression::i();
    let result = i.eval_numeric(53).unwrap();
    assert_eq!(result, i);
}

#[test]
fn test_eval_numeric_add_numbers() {
    let expr = Expression::add(vec![num(2), num(3)]);
    let result = expr.eval_numeric(53).unwrap();

    assert_eq!(result, Expression::add(vec![num(2), num(3)]));
}

#[test]
fn test_eval_numeric_add_with_symbols() {
    let x = Symbol::new("x");
    let y = Symbol::new("y");
    let expr = Expression::add(vec![Expression::symbol(x.clone()), Expression::symbol(y.clone())]);

    let result = expr.eval_numeric(53).unwrap();

    assert_eq!(result, expr);
}

#[test]
fn test_eval_numeric_mul_numbers() {
    let expr = Expression::mul(vec![num(2), num(3)]);
    let result = expr.eval_numeric(53).unwrap();

    assert_eq!(result, Expression::mul(vec![num(2), num(3)]));
}

#[test]
fn test_eval_numeric_pow_positive_exponent() {
    let expr = Expression::pow(num(2), num(3));
    let result = expr.eval_numeric(53).unwrap();

    assert_eq!(result, Expression::pow(num(2), num(3)));
}

#[test]
fn test_eval_numeric_pow_zero_base_positive_exp() {
    let expr = Expression::pow(num(0), num(2));
    let result = expr.eval_numeric(53).unwrap();

    assert_eq!(result, Expression::pow(num(0), num(2)));
}

#[test]
fn test_eval_numeric_pow_zero_base_negative_exp_errors() {
    let expr = Expression::pow(Expression::integer(0), Expression::integer(-2));
    let result = expr.eval_numeric(53);

    assert!(matches!(result, Err(MathError::DivisionByZero)));
}

#[test]
fn test_eval_numeric_function_sin() {
    let x = Symbol::new("x");
    let expr = Expression::function("sin", vec![Expression::symbol(x)]);
    let result = expr.eval_numeric(53).unwrap();

    assert_eq!(result, expr);
}

#[test]
fn test_eval_numeric_function_with_number() {
    let expr = Expression::function("sin", vec![Expression::integer(0)]);
    let result = expr.eval_numeric(53).unwrap();

    assert_eq!(result, num(0));
}

#[test]
fn test_eval_numeric_matrix_with_numbers() {
    let matrix_expr = Expression::matrix(vec![
        vec![Expression::integer(1), Expression::integer(2)],
        vec![Expression::integer(3), Expression::integer(4)],
    ]);

    let result = matrix_expr.eval_numeric(53).unwrap();

    match result {
        Expression::Matrix(m) => {
            assert_eq!(m.dimensions(), (2, 2));
            assert_eq!(m.get_element(0, 0), Expression::integer(1));
            assert_eq!(m.get_element(0, 1), Expression::integer(2));
            assert_eq!(m.get_element(1, 0), Expression::integer(3));
            assert_eq!(m.get_element(1, 1), Expression::integer(4));
        }
        _ => panic!("Expected Matrix expression"),
    }
}

#[test]
fn test_eval_numeric_matrix_with_constants() {
    let matrix_expr = Expression::matrix(vec![vec![Expression::pi(), Expression::e()]]);

    let result = matrix_expr.eval_numeric(53).unwrap();

    match result {
        Expression::Matrix(m) => {
            let pi_elem = m.get_element(0, 0);
            let e_elem = m.get_element(0, 1);

            assert_eq!(pi_elem, float(std::f64::consts::PI));
            assert_eq!(e_elem, float(std::f64::consts::E));
        }
        _ => panic!("Expected Matrix expression"),
    }
}

#[test]
fn test_eval_numeric_set_with_numbers() {
    let set_expr = Expression::set(vec![
        Expression::integer(1),
        Expression::integer(2),
        Expression::integer(3),
    ]);

    let result = set_expr.eval_numeric(53).unwrap();

    match result {
        Expression::FiniteSet(elements) => {
            assert_eq!(elements.len(), 3);
            assert!(elements.contains(&Expression::integer(1)));
            assert!(elements.contains(&Expression::integer(2)));
            assert!(elements.contains(&Expression::integer(3)));
        }
        _ => panic!("Expected Set expression"),
    }
}

#[test]
fn test_eval_numeric_set_with_constants() {
    let set_expr = Expression::set(vec![Expression::pi(), Expression::e()]);

    let result = set_expr.eval_numeric(53).unwrap();

    match result {
        Expression::FiniteSet(elements) => {
            assert_eq!(elements.len(), 2);

            assert!(elements.contains(&float(std::f64::consts::PI)));
            assert!(elements.contains(&float(std::f64::consts::E)));
        }
        _ => panic!("Expected Set expression"),
    }
}

#[test]
fn test_eval_numeric_complex_with_constants() {
    let complex_expr = Expression::complex(Expression::pi(), Expression::e());

    let result = complex_expr.eval_numeric(53).unwrap();

    match result {
        Expression::Complex(data) => {
            assert_eq!(data.real, float(std::f64::consts::PI));
            assert_eq!(data.imag, float(std::f64::consts::E));
        }
        _ => panic!("Expected Complex expression"),
    }
}

#[test]
fn test_eval_numeric_interval_with_constants() {
    let interval_expr = Expression::interval(Expression::pi(), Expression::e(), true, false);

    let result = interval_expr.eval_numeric(53).unwrap();

    match result {
        Expression::Interval(data) => {
            assert_eq!(data.start, float(std::f64::consts::PI));
            assert_eq!(data.end, float(std::f64::consts::E));
            assert!(data.start_inclusive);
            assert!(!data.end_inclusive);
        }
        _ => panic!("Expected Interval expression"),
    }
}

#[test]
fn test_eval_numeric_piecewise_evaluates_expressions_not_conditions() {
    let x = Symbol::new("x");
    let condition = Expression::relation(
        Expression::symbol(x.clone()),
        Expression::integer(0),
        RelationType::Greater,
    );

    let piecewise_expr = Expression::piecewise(
        vec![
            (Expression::pi(), condition.clone()),
            (Expression::e(), Expression::integer(1)),
        ],
        Some(Expression::integer(0)),
    );

    let result = piecewise_expr.eval_numeric(53).unwrap();

    match result {
        Expression::Piecewise(data) => {
            assert_eq!(data.pieces.len(), 2);

            let (expr1, cond1) = &data.pieces[0];
            assert_eq!(expr1, &float(std::f64::consts::PI));
            assert_eq!(cond1, &condition);

            let (expr2, cond2) = &data.pieces[1];
            assert_eq!(expr2, &float(std::f64::consts::E));
            assert_eq!(cond2, &Expression::integer(1));

            assert_eq!(data.default, Some(Expression::integer(0)));
        }
        _ => panic!("Expected Piecewise expression"),
    }
}

#[test]
fn test_eval_numeric_relation_evaluates_both_sides() {
    let relation_expr = Expression::relation(Expression::pi(), Expression::e(), RelationType::Less);

    let result = relation_expr.eval_numeric(53).unwrap();

    match result {
        Expression::Relation(data) => {
            assert_eq!(data.left, float(std::f64::consts::PI));
            assert_eq!(data.right, float(std::f64::consts::E));
            assert_eq!(data.relation_type, RelationType::Less);
        }
        _ => panic!("Expected Relation expression"),
    }
}

#[test]
fn test_eval_numeric_calculus_remains_symbolic() {
    let x = Symbol::new("x");
    let derivative_expr = Expression::derivative(
        Expression::pow(Expression::symbol(x.clone()), Expression::integer(2)),
        x,
        1,
    );

    let result = derivative_expr.eval_numeric(53).unwrap();

    assert_eq!(result, derivative_expr);
}

#[test]
fn test_eval_numeric_precision_parameter_ignored() {
    let pi = Expression::pi();

    let result1 = pi.eval_numeric(53).unwrap();
    let result2 = pi.eval_numeric(100).unwrap();

    assert_eq!(result1, result2);
}
