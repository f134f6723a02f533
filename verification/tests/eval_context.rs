//! The evaluation context and its builders.

use mathhook_core::eval_numeric::EvalContext;
use mathhook_core::expr::Expression;
use mathhook_core::subst::VarMap;

#[test]
fn test_eval_context_symbolic() {
    let ctx = EvalContext::symbolic();
    assert!(!ctx.numeric);
    assert!(ctx.variables.is_empty());
    assert_eq!(ctx.precision, 53);
    assert!(!ctx.simplify_first);
}

#[test]
fn test_eval_context_numeric() {
    let mut vars = VarMap::new();
    vars.insert("x".to_string(), Expression::integer(5));
    let ctx = EvalContext::numeric(vars);

    assert!(ctx.numeric);
    assert_eq!(ctx.variables.len(), 1);
    assert_eq!(ctx.precision, 53);
    assert!(ctx.simplify_first);
}

#[test]
fn test_eval_context_with_precision() {
    let ctx = EvalContext::symbolic().with_precision(128);
    assert_eq!(ctx.precision, 128);
}

#[test]
fn test_eval_context_with_simplify() {
    let ctx = EvalContext::symbolic().with_simplify(true);
    assert!(ctx.simplify_first);

    let ctx = EvalContext::symbolic().with_simplify(false);
    assert!(!ctx.simplify_first);
}

#[test]
fn test_eval_context_default() {
    let ctx = EvalContext::default();
    assert!(!ctx.numeric);
    assert!(ctx.variables.is_empty());
}

#[test]
fn test_eval_context_chaining() {
    let mut vars = VarMap::new();
    vars.insert("x".to_string(), Expression::integer(3));

    let ctx = EvalContext::numeric(vars)
        .with_precision(128)
        .with_simplify(false);

    assert!(ctx.numeric);
    assert_eq!(ctx.variables.len(), 1);
    assert_eq!(ctx.precision, 128);
    assert!(!ctx.simplify_first);
}
