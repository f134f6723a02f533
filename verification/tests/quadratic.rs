//! Factoring integer quadratics, checked by expanding back.

use mathhook_core::expr::{Expression, Symbol};

/// `x^2 + b·x + c` as a canonical sum.
fn quad(x: &Symbol, b: i64, c: i64) -> Expression {
    let mut terms = vec![Expression::pow(Expression::symbol(x.clone()), Expression::integer(2))];
    if b != 0 {
        terms.push(Expression::mul(vec![Expression::integer(b), Expression::symbol(x.clone())]));
    }
    if c != 0 {
        terms.push(Expression::integer(c));
    }
    Expression::add(terms)
}

/// A factored quadratic must become a product and expand back to the quadratic.
fn assert_factors_back(quadratic: Expression) {
    let factored = quadratic.factor();
    assert!(matches!(factored, Expression::Mul(_)), "expected a product, got {:?}", factored);
    assert_eq!(factored.expand(), quadratic, "expanded factorization must equal the quadratic");
}

#[test]
fn difference_of_squares_factors_and_expands_back() {
    let x = Symbol::new("x");
    assert_factors_back(quad(&x, 0, -1));
    assert_factors_back(quad(&x, 0, -9));
}

#[test]
fn monic_quadratic_with_integer_roots_factors_and_expands_back() {
    let x = Symbol::new("x");
    assert_factors_back(quad(&x, -3, 2));
    assert_factors_back(quad(&x, 5, 6));
}

#[test]
fn irreducible_quadratic_is_left_unfactored() {
    let x = Symbol::new("x");
    let p = quad(&x, 0, 1);
    assert_eq!(p.clone().factor(), p);
    let q = quad(&x, 1, 1);
    assert_eq!(q.clone().factor(), q);
}

#[test]
fn multivariate_is_not_mistaken_for_a_quadratic() {
    let x = Symbol::new("x");
    let y = Symbol::new("y");
    let p = Expression::add(vec![
        Expression::pow(Expression::symbol(x), Expression::integer(2)),
        Expression::symbol(y),
    ]);
    assert_eq!(p.clone().factor(), p);
}
