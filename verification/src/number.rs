//! Numbers: machine integers, IEEE-754 doubles (held as their bit pattern),
//! big integers and big rationals.

use crate::bigint::{BigInteger, Rational};
use vstd::prelude::*;

verus! {

/// A number as it appears in an expression.
#[derive(Debug, PartialEq, Eq)]
pub enum Number {
    Integer(i64),
    /// An IEEE-754 binary64 value, given by its bit pattern.
    Float(u64),
    BigInteger(BigInteger),
    Rational(Rational),
}

/// The mathematical content of a [`Number`].
pub enum NumberModel {
    Integer(int),
    Float(u64),
    BigInteger(int),
    Rational(int, int),
}

impl View for Number {
    type V = NumberModel;

    open spec fn view(&self) -> NumberModel {
        match self {
            Number::Integer(i) => NumberModel::Integer(*i as int),
            Number::Float(b) => NumberModel::Float(*b),
            Number::BigInteger(b) => NumberModel::BigInteger(b@),
            Number::Rational(q) => NumberModel::Rational(q.numer_value(), q.denom_value()),
        }
    }
}

/// Bit pattern of `-0.0`.
pub const SIGN_BIT: u64 = 0x8000_0000_0000_0000u64;

/// Bit pattern of negative infinity, the greatest bit pattern of a negative
/// non-NaN double.
pub const NEG_INFINITY_BITS: u64 = 0xFFF0_0000_0000_0000u64;

/// Whether the double with bit pattern `b` compares below `0.0`: the sign bit is
/// set, the value is not `-0.0`, and it is not a NaN.
pub open spec fn float_bits_negative(b: u64) -> bool {
    SIGN_BIT < b <= NEG_INFINITY_BITS
}

/// Whether the double with bit pattern `b` compares equal to `0.0` (`+0.0` or `-0.0`).
pub open spec fn float_bits_zero(b: u64) -> bool {
    b == 0 || b == SIGN_BIT
}

/// Whether a number is negative, as `<` against zero in its own type decides.
pub open spec fn number_negative(n: NumberModel) -> bool {
    match n {
        NumberModel::Integer(i) => i < 0,
        NumberModel::Float(b) => float_bits_negative(b),
        NumberModel::BigInteger(v) => v < 0,
        NumberModel::Rational(p, _) => p < 0,
    }
}

/// Whether a number equals zero.
pub open spec fn number_zero(n: NumberModel) -> bool {
    match n {
        NumberModel::Integer(i) => i == 0,
        NumberModel::Float(b) => float_bits_zero(b),
        NumberModel::BigInteger(v) => v == 0,
        NumberModel::Rational(p, _) => p == 0,
    }
}

impl Number {
    /// Whether two numbers are the same value of the same kind.
    pub fn same(&self, other: &Number) -> (r: bool)
        ensures
            r == (self@ == other@),
    {
        match (self, other) {
            (Number::Integer(a), Number::Integer(b)) => *a == *b,
            (Number::Float(a), Number::Float(b)) => *a == *b,
            (Number::BigInteger(a), Number::BigInteger(b)) => a.same(b),
            (Number::Rational(a), Number::Rational(b)) => a.same(b),
            _ => false,
        }
    }

    /// Whether the number equals zero.
    pub fn is_zero(&self) -> (r: bool)
        ensures
            r == number_zero(self@),
    {
        match self {
            Number::Integer(i) => *i == 0,
            Number::Float(b) => *b == 0 || *b == SIGN_BIT,
            Number::BigInteger(b) => b.is_zero(),
            Number::Rational(q) => q.is_zero(),
        }
    }
}

impl Clone for Number {
    fn clone(&self) -> (r: Self)
        ensures
            r@ == self@,
    {
        match self {
            Number::Integer(i) => Number::Integer(*i),
            Number::Float(b) => Number::Float(*b),
            Number::BigInteger(b) => Number::BigInteger(b.clone()),
            Number::Rational(q) => Number::Rational(q.clone()),
        }
    }
}

/// Whether a number is below zero (`is_number_negative` of the evaluator).
pub fn is_number_negative(n: &Number) -> (r: bool)
    ensures
        r == number_negative(n@),
{
    match n {
        Number::Integer(i) => *i < 0,
        Number::Float(b) => SIGN_BIT < *b && *b <= NEG_INFINITY_BITS,
        Number::BigInteger(b) => b.is_negative(),
        Number::Rational(q) => q.is_negative(),
    }
}

} // verus!
