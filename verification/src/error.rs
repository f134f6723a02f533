//! The errors of evaluation.

use crate::expr::{ExprModel, Expression};
use vstd::prelude::*;

verus! {

/// Why an evaluation failed.
#[derive(Debug, PartialEq)]
pub enum MathError {
    /// A division by zero, such as `0` raised to a negative power.
    DivisionByZero,
    /// An argument outside the real domain of an operation.
    DomainError { operation: String, value: Expression, reason: String },
    /// A function evaluated at one of its poles.
    Pole { function: String, at: Expression },
    /// A function evaluated on its branch cut.
    BranchCut { function: String, value: Expression },
    /// A numeric conversion that overflowed.
    NumericOverflow { operation: String },
    /// A result that is not a number where one was needed.
    NonNumericalResult { expression: Expression },
}

/// The mathematical content of a [`MathError`].
pub enum ErrorModel {
    DivisionByZero,
    DomainError { operation: Seq<char>, value: ExprModel, reason: Seq<char> },
    Pole { function: Seq<char>, at: ExprModel },
    BranchCut { function: Seq<char>, value: ExprModel },
    NumericOverflow { operation: Seq<char> },
    NonNumericalResult { expression: ExprModel },
}

impl View for MathError {
    type V = ErrorModel;

    open spec fn view(&self) -> ErrorModel {
        match self {
            MathError::DivisionByZero => ErrorModel::DivisionByZero,
            MathError::DomainError { operation, value, reason } => ErrorModel::DomainError {
                operation: operation@,
                value: value@,
                reason: reason@,
            },
            MathError::Pole { function, at } => ErrorModel::Pole { function: function@, at: at@ },
            MathError::BranchCut { function, value } => ErrorModel::BranchCut {
                function: function@,
                value: value@,
            },
            MathError::NumericOverflow { operation } => ErrorModel::NumericOverflow {
                operation: operation@,
            },
            MathError::NonNumericalResult { expression } => ErrorModel::NonNumericalResult {
                expression: expression@,
            },
        }
    }
}

/// The model of an evaluation result.
pub open spec fn result_model(r: Result<Expression, MathError>) -> Result<ExprModel, ErrorModel> {
    match r {
        Ok(e) => Ok(e@),
        Err(x) => Err(x@),
    }
}

/// The model of a result holding a list of expressions.
pub open spec fn vec_result_model(r: Result<Vec<Expression>, MathError>) -> Result<Seq<ExprModel>, ErrorModel> {
    match r {
        Ok(v) => Ok(crate::expr::view_seq(v@)),
        Err(x) => Err(x@),
    }
}

} // verus!
