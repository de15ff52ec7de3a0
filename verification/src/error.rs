//! The ways in which a program can fail.

use vstd::prelude::*;

verus! {

/// Why a run was aborted.
#[derive(Clone, Copy, Debug, PartialEq, Eq, Structural)]
pub enum ErrorKind {
    /// A command has the wrong number of arguments, or too few are left
    /// once its expression has its value.
    InvalidArgumentCount,
    /// An `IF` or `WHILE` line does not end in `[`.
    MalformedBlock,
    /// A `:name` token names a variable that has no value.
    UndefinedVariable,
    /// An argument is neither a variable, a literal, a query, an operator nor `[`.
    InvalidToken,
    /// An expression has too few or too many operands.
    MalformedExpression,
    /// A number was expected.
    NotANumber,
    /// `TRUE` or `FALSE` was expected.
    NotABoolean,
    /// The divisor of `/` is zero.
    DivisionByZero,
    /// A pen colour is not a whole number from 0 to 16.
    InvalidColor,
    /// A value is neither a number nor `TRUE` or `FALSE`, or does not fit where it is stored.
    InvalidValue,
    /// An `IF` or `WHILE` has no matching `]`.
    UnterminatedBlock,
    /// A `TO` has no `END` after it.
    UnterminatedProcedure,
    /// A procedure was called before its `TO` line was reached.
    UndefinedProcedure,
    /// A procedure was called with fewer arguments than it has parameters.
    MissingArgument,
    /// The program ended inside an `IF` or `WHILE` block.
    UnbalancedControlFlow,
    /// The program has more `TO` lines than `END` lines.
    SurplusProcedureStart,
    /// The program has more `END` lines than `TO` lines.
    SurplusProcedureEnd,
}

/// An error together with the position of the command that raised it.
#[derive(Clone, Copy, Debug, PartialEq, Eq, Structural)]
pub struct LocError {
    pub kind: ErrorKind,
    /// Index of the failing command in the program.
    pub location: usize,
}

/// The words in which an error is reported.
pub open spec fn message_of(kind: ErrorKind) -> Seq<char> {
    match kind {
        ErrorKind::InvalidArgumentCount => "Incorrect num arguments"@,
        ErrorKind::MalformedBlock => "Missing ["@,
        ErrorKind::UndefinedVariable => "Variable not found"@,
        ErrorKind::InvalidToken => "Invalid token given"@,
        ErrorKind::MalformedExpression => "Invalid expression"@,
        ErrorKind::NotANumber => "Couldnt convert arguments to numbers"@,
        ErrorKind::NotABoolean => "Not a bool"@,
        ErrorKind::DivisionByZero => "Attemping to divide by 0! Naughty..."@,
        ErrorKind::InvalidColor => "Invalid colour, colour must be an integer between 0 and 16"@,
        ErrorKind::InvalidValue => "Unable to convert to a float!"@,
        ErrorKind::UnterminatedBlock => "No end of conditional!"@,
        ErrorKind::UnterminatedProcedure => "No end to procedure!"@,
        ErrorKind::UndefinedProcedure => "No function with that name found"@,
        ErrorKind::MissingArgument => "Missing procedure argument"@,
        ErrorKind::UnbalancedControlFlow => "Stack not empty at end of program"@,
        ErrorKind::SurplusProcedureStart => "too many toos, not enough ends"@,
        ErrorKind::SurplusProcedureEnd => "too many ends, not enough toos"@,
    }
}

impl ErrorKind {
    /// The words in which the error is reported.
    pub fn message(&self) -> (r: String)
        ensures
            r@ == message_of(*self),
    {
        let words = match self {
            ErrorKind::InvalidArgumentCount => "Incorrect num arguments",
            ErrorKind::MalformedBlock => "Missing [",
            ErrorKind::UndefinedVariable => "Variable not found",
            ErrorKind::InvalidToken => "Invalid token given",
            ErrorKind::MalformedExpression => "Invalid expression",
            ErrorKind::NotANumber => "Couldnt convert arguments to numbers",
            ErrorKind::NotABoolean => "Not a bool",
            ErrorKind::DivisionByZero => "Attemping to divide by 0! Naughty...",
            ErrorKind::InvalidColor => "Invalid colour, colour must be an integer between 0 and 16",
            ErrorKind::InvalidValue => "Unable to convert to a float!",
            ErrorKind::UnterminatedBlock => "No end of conditional!",
            ErrorKind::UnterminatedProcedure => "No end to procedure!",
            ErrorKind::UndefinedProcedure => "No function with that name found",
            ErrorKind::MissingArgument => "Missing procedure argument",
            ErrorKind::UnbalancedControlFlow => "Stack not empty at end of program",
            ErrorKind::SurplusProcedureStart => "too many toos, not enough ends",
            ErrorKind::SurplusProcedureEnd => "too many ends, not enough toos",
        };
        String::from_str(words)
    }
}

impl LocError {
    pub fn new(kind: ErrorKind, location: usize) -> (r: Self)
        ensures
            r == (LocError { kind, location }),
    {
        LocError { kind, location }
    }
}

} // verus!
