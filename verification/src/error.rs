//! Structured errors of the dice-notation engine.

use vstd::prelude::*;

verus! {

/// Everything that can go wrong while tokenizing or evaluating a dice
/// expression. The engine returns these to its caller; turning them into a
/// user-facing reply is the command layer's job.
#[derive(Clone, Copy, Debug, PartialEq, Eq, Structural)]
pub enum RollError {
    /// An unrecognized character, or a `k` not followed by `h` or `l`.
    InvalidToken,
    /// An operator had too few operands (the dice operator alone may take an
    /// implicit left operand of 1).
    InsufficientOperands,
    /// A type mismatch during evaluation, such as a keep filter applied to a
    /// value that is not a dice roll.
    NotAnOperand,
    /// A token that is no usable operator reached the evaluator, such as a
    /// grouping parenthesis left over from conversion.
    NotAnOperator,
    /// A non-positive die count or side count, a keep count below zero, or a
    /// numeric literal too large for the engine's integer range.
    InvalidRollParameters,
    /// The expression did not reduce to exactly one value, the empty
    /// expression included.
    MalformedExpression,
    /// Arithmetic or a dice total left the engine's integer range.
    Overflow,
    /// A division whose right operand is zero; the engine rejects it rather
    /// than produce a non-finite value.
    DivisionByZero,
}

impl RollError {
    /// A short human-readable description, used by the command layer when it
    /// replies to the user.
    pub fn message(&self) -> (m: &'static str)
        ensures
            m@ == self.message_spec(),
    {
        match self {
            RollError::InvalidToken => "unknown token",
            RollError::InsufficientOperands => "not enough operands for operator",
            RollError::NotAnOperand => "not an operand",
            RollError::NotAnOperator => "not an operator",
            RollError::InvalidRollParameters => "invalid roll parameters",
            RollError::MalformedExpression => "invalid expression",
            RollError::Overflow => "value out of range",
            RollError::DivisionByZero => "division by zero",
        }
    }

    /// What `message` returns, for use in contracts.
    pub open spec fn message_spec(&self) -> Seq<char> {
        match self {
            RollError::InvalidToken => "unknown token"@,
            RollError::InsufficientOperands => "not enough operands for operator"@,
            RollError::NotAnOperand => "not an operand"@,
            RollError::NotAnOperator => "not an operator"@,
            RollError::InvalidRollParameters => "invalid roll parameters"@,
            RollError::MalformedExpression => "invalid expression"@,
            RollError::Overflow => "value out of range"@,
            RollError::DivisionByZero => "division by zero"@,
        }
    }
}

/// The reply the error handler sends for a failed command: the image
/// search's own description where the failure was its, and a plain general
/// word otherwise.
pub fn error_reply(gelbooru: Option<crate::gelbooru::GelbooruError>) -> (r: String)
    ensures
        match gelbooru {
            Some(e) => r@ == e.message_spec(),
            None => r@ == "An error occurred while executing this command."@,
        },
{
    match gelbooru {
        Some(e) => e.message().to_owned(),
        None => "An error occurred while executing this command.".to_owned(),
    }
}

} // verus!
