//! The failures that parsing and calculation report.
use vstd::prelude::*;

use crate::text::str_eq;

verus! {

/// All recoverable failures produced by parsing or calculation.
#[derive(Debug, Clone, PartialEq, Eq)]
pub enum EecalcError {
    UnknownCommand(String),
    MissingArgument(String),
    UnexpectedArgument(String),
    InvalidNumber { value: String, message: String },
    WrongArgumentCount { command: &'static str },
    NonPositiveValue { what: &'static str },
    DivisionByZero,
}

/// An error as the user sees it: its kind and the texts it carries.
pub enum ErrorView {
    UnknownCommand(Seq<char>),
    MissingArgument(Seq<char>),
    UnexpectedArgument(Seq<char>),
    InvalidNumber { value: Seq<char>, message: Seq<char> },
    WrongArgumentCount { command: Seq<char> },
    NonPositiveValue { what: Seq<char> },
    DivisionByZero,
}

impl View for EecalcError {
    type V = ErrorView;

    open spec fn view(&self) -> ErrorView {
        match self {
            EecalcError::UnknownCommand(name) => ErrorView::UnknownCommand(name@),
            EecalcError::MissingArgument(message) => ErrorView::MissingArgument(message@),
            EecalcError::UnexpectedArgument(token) => ErrorView::UnexpectedArgument(token@),
            EecalcError::InvalidNumber { value, message } => ErrorView::InvalidNumber {
                value: value@,
                message: message@,
            },
            EecalcError::WrongArgumentCount { command } => ErrorView::WrongArgumentCount {
                command: command@,
            },
            EecalcError::NonPositiveValue { what } => ErrorView::NonPositiveValue { what: what@ },
            EecalcError::DivisionByZero => ErrorView::DivisionByZero,
        }
    }
}

/// Whether the error comes from a calculation rather than from the command line.
pub open spec fn is_calculation_error(e: EecalcError) -> bool {
    e is NonPositiveValue || e is DivisionByZero
}

/// The text that describes the error to the user.
pub open spec fn error_message(e: EecalcError) -> Seq<char> {
    match e {
        EecalcError::UnknownCommand(name) => "unknown command '"@ + name@ + "'"@,
        EecalcError::MissingArgument(message) => message@,
        EecalcError::UnexpectedArgument(token) => "unexpected argument '"@ + token@ + "'"@,
        EecalcError::InvalidNumber { value, message } => "invalid value '"@ + value@ + "': "@
            + message@,
        EecalcError::WrongArgumentCount { command } => if command@ == "ohm"@ {
            "ohm requires exactly two of --voltage, --current, --resistance"@
        } else if command@ == "power"@ {
            "power requires exactly two of --voltage, --current, --resistance"@
        } else {
            command@ + " requires at least two values"@
        },
        EecalcError::NonPositiveValue { what } => what@ + " must be greater than zero"@,
        EecalcError::DivisionByZero => "current must not be zero"@,
    }
}

impl EecalcError {
    /// Process exit code: 1 for calculation errors, 2 for usage/parse errors.
    pub fn exit_code(&self) -> (r: i32)
        ensures
            r == (if is_calculation_error(*self) {
                1i32
            } else {
                2i32
            }),
    {
        match self {
            EecalcError::NonPositiveValue { .. } | EecalcError::DivisionByZero => 1,
            _ => 2,
        }
    }

    /// The user-facing description of the error.
    pub fn to_string(&self) -> (r: String)
        ensures
            r@ == error_message(*self),
    {
        let mut out = String::new();
        match self {
            EecalcError::UnknownCommand(name) => {
                out.append("unknown command '");
                out.append(name.as_str());
                out.append("'");
            },
            EecalcError::MissingArgument(message) => {
                out.append(message.as_str());
            },
            EecalcError::UnexpectedArgument(token) => {
                out.append("unexpected argument '");
                out.append(token.as_str());
                out.append("'");
            },
            EecalcError::InvalidNumber { value, message } => {
                out.append("invalid value '");
                out.append(value.as_str());
                out.append("': ");
                out.append(message.as_str());
            },
            EecalcError::WrongArgumentCount { command } => {
                if str_eq(command, "ohm") {
                    out.append("ohm requires exactly two of --voltage, --current, --resistance");
                } else if str_eq(command, "power") {
                    out.append("power requires exactly two of --voltage, --current, --resistance");
                } else {
                    out.append(command);
                    out.append(" requires at least two values");
                }
            },
            EecalcError::NonPositiveValue { what } => {
                out.append(what);
                out.append(" must be greater than zero");
            },
            EecalcError::DivisionByZero => {
                out.append("current must not be zero");
            },
        }
        out
    }
}

} // verus!
