//! Verified core of a symbolic algebra library: expressions, evaluation with
//! substitution and numeric conversion, and integer factoring.

pub mod arith;

pub mod bigint;
pub mod number;
pub mod expr;
pub mod construct;
pub mod factor;
pub mod simplify;
pub mod subst;
pub mod error;
pub mod eval_numeric;
pub mod evaluation;
pub mod pole;
pub mod expand;
pub mod value;
