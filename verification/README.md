# mathhook-core

The verified core of a symbolic algebra library: expressions, their canonical
construction, simplification, substitution, exact and numerical evaluation with
domain checks, factoring over the integers, and expansion.

Every function under `src/` carries a contract over a mathematical model of the
expression tree (`ExprModel`), and the value of an expression under an
assignment of integers to its atoms (`value`) states the laws: the canonical
constructors, simplification, substitution, evaluation, factoring and expansion
all keep the value.

Layout:

- `src/expr.rs`, `src/number.rs`, `src/bigint.rs`: the expression tree, numbers
  (doubles held as their bit patterns) and big integers and rationals, whose
  arithmetic is done by `num-bigint`, `num-integer` and `num-rational`.
- `src/construct.rs`: canonical sums, products and powers.
- `src/simplify.rs`, `src/subst.rs`: simplification, variable maps and
  substitution.
- `src/eval_numeric.rs`, `src/evaluation.rs`, `src/error.rs`: numerical and
  exact evaluation, the evaluation context, and the errors.
- `src/factor/`: common factors (and the law that the common factor divides
  every term), integer quadratics (and the rational root argument by which
  every quadratic with a square discriminant factors); `src/expand.rs`:
  expansion.
- `src/pole.rs`: the pole tests of `tan`, `sec`, `csc` and `cot` at integers
  and doubles, computed exactly in integers.
- `src/value.rs`: the value semantics and the constructor laws.
- `app/lib.rs`: the floating-point side (conversion to `f64`, powers of
  doubles, the pole checks of `tan`, `sec`, `csc` and `cot` at big integers
  and fractions)
  and contexts built from hash maps.
