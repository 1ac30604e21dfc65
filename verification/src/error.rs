//! The ways in which running a program can fail.
use vstd::prelude::*;
use crate::text::{concat2, concat3, decimal, int_text, int_to_text, usize_to_text};

verus! {

/// The kind of operands an operator was applied to.
#[derive(Clone, Copy, Debug, PartialEq, Eq)]
pub enum OperandKind {
    Integers,
    Booleans,
    Strings,
    Enums,
}

/// A failure while evaluating an expression or running a transition.
#[derive(Debug, PartialEq)]
pub enum RuntimeError {
    UndefinedVariable(String),
    NegateNonNumeric,
    NegateNonBoolean,
    InvalidOperator(OperandKind),
    IncompatibleOperands,
    DivisionByZero,
    Overflow,
    OldOutsidePostcondition,
    FieldNotFound(String),
    NotARecord,
    IndexOutOfBounds { index: i64, len: usize },
    /// Reading an array element outside the array.
    IndexOutOfRange(i64),
    KeyNotFound(String),
    InvalidIndexAccess,
    QuantifierNeedsRange,
    QuantifierBoundNotInt,
    BuiltinArgument(String),
    UnknownFunction(String),
    UnsupportedExpression,
    UnsupportedReal,
    CannotIndexInto,
    InvalidMapKey,
    IncompatibleCompound,
    AssertionFailed,
    NonExhaustiveMatch,
    PreconditionFailed(String),
    PostconditionFailed(String),
    InvariantViolated { invariant_name: String, transition_name: String },
}

/// The model of a [`RuntimeError`]: names are taken by their characters.
pub enum RtErr {
    UndefinedVariable(Seq<char>),
    NegateNonNumeric,
    NegateNonBoolean,
    InvalidOperator(OperandKind),
    IncompatibleOperands,
    DivisionByZero,
    Overflow,
    OldOutsidePostcondition,
    FieldNotFound(Seq<char>),
    NotARecord,
    IndexOutOfBounds { index: i64, len: usize },
    IndexOutOfRange(i64),
    KeyNotFound(Seq<char>),
    InvalidIndexAccess,
    QuantifierNeedsRange,
    QuantifierBoundNotInt,
    BuiltinArgument(Seq<char>),
    UnknownFunction(Seq<char>),
    UnsupportedExpression,
    UnsupportedReal,
    CannotIndexInto,
    InvalidMapKey,
    IncompatibleCompound,
    AssertionFailed,
    NonExhaustiveMatch,
    PreconditionFailed(Seq<char>),
    PostconditionFailed(Seq<char>),
    InvariantViolated { invariant_name: Seq<char>, transition_name: Seq<char> },
}

impl View for RuntimeError {
    type V = RtErr;

    open spec fn view(&self) -> RtErr {
        match self {
            RuntimeError::UndefinedVariable(s) => RtErr::UndefinedVariable(s@),
            RuntimeError::NegateNonNumeric => RtErr::NegateNonNumeric,
            RuntimeError::NegateNonBoolean => RtErr::NegateNonBoolean,
            RuntimeError::InvalidOperator(k) => RtErr::InvalidOperator(*k),
            RuntimeError::IncompatibleOperands => RtErr::IncompatibleOperands,
            RuntimeError::DivisionByZero => RtErr::DivisionByZero,
            RuntimeError::Overflow => RtErr::Overflow,
            RuntimeError::OldOutsidePostcondition => RtErr::OldOutsidePostcondition,
            RuntimeError::FieldNotFound(s) => RtErr::FieldNotFound(s@),
            RuntimeError::NotARecord => RtErr::NotARecord,
            RuntimeError::IndexOutOfBounds { index, len } => RtErr::IndexOutOfBounds {
                index: *index,
                len: *len,
            },
            RuntimeError::IndexOutOfRange(i) => RtErr::IndexOutOfRange(*i),
            RuntimeError::KeyNotFound(s) => RtErr::KeyNotFound(s@),
            RuntimeError::InvalidIndexAccess => RtErr::InvalidIndexAccess,
            RuntimeError::QuantifierNeedsRange => RtErr::QuantifierNeedsRange,
            RuntimeError::QuantifierBoundNotInt => RtErr::QuantifierBoundNotInt,
            RuntimeError::BuiltinArgument(s) => RtErr::BuiltinArgument(s@),
            RuntimeError::UnknownFunction(s) => RtErr::UnknownFunction(s@),
            RuntimeError::UnsupportedExpression => RtErr::UnsupportedExpression,
            RuntimeError::UnsupportedReal => RtErr::UnsupportedReal,
            RuntimeError::CannotIndexInto => RtErr::CannotIndexInto,
            RuntimeError::InvalidMapKey => RtErr::InvalidMapKey,
            RuntimeError::IncompatibleCompound => RtErr::IncompatibleCompound,
            RuntimeError::AssertionFailed => RtErr::AssertionFailed,
            RuntimeError::NonExhaustiveMatch => RtErr::NonExhaustiveMatch,
            RuntimeError::PreconditionFailed(s) => RtErr::PreconditionFailed(s@),
            RuntimeError::PostconditionFailed(s) => RtErr::PostconditionFailed(s@),
            RuntimeError::InvariantViolated { invariant_name, transition_name } => RtErr::InvariantViolated {
                invariant_name: invariant_name@,
                transition_name: transition_name@,
            },
        }
    }
}


/// The message an error is reported with.
pub open spec fn error_message(e: RtErr) -> Seq<char> {
    match e {
        RtErr::UndefinedVariable(n) => "undefined variable: "@ + n,
        RtErr::NegateNonNumeric => "cannot negate non-numeric value"@,
        RtErr::NegateNonBoolean => "cannot negate non-boolean value"@,
        RtErr::InvalidOperator(k) => "invalid operator for "@ + match k {
            OperandKind::Integers => "integers"@,
            OperandKind::Booleans => "booleans"@,
            OperandKind::Strings => "strings"@,
            OperandKind::Enums => "enums"@,
        },
        RtErr::IncompatibleOperands => "incompatible types for binary operation"@,
        RtErr::DivisionByZero => "division by zero"@,
        RtErr::Overflow => "integer overflow"@,
        RtErr::OldOutsidePostcondition => "old() can only be used in postconditions"@,
        RtErr::FieldNotFound(f) => "field '"@ + f + "' not found"@,
        RtErr::NotARecord => "cannot access field on non-record value"@,
        RtErr::IndexOutOfBounds { index, len } => "array index "@ + int_text(index as int) + " out of bounds (len "@
            + decimal(len as nat) + ")"@,
        RtErr::IndexOutOfRange(index) => "index "@ + int_text(index as int) + " out of bounds"@,
        RtErr::KeyNotFound(k) => "key '"@ + k + "' not found"@,
        RtErr::InvalidIndexAccess => "invalid index access"@,
        RtErr::QuantifierNeedsRange => "quantifier requires a range domain in runtime"@,
        RtErr::QuantifierBoundNotInt => "range bounds must be integers"@,
        RtErr::BuiltinArgument(f) => if f == "abs"@ {
            "abs() requires a numeric argument"@
        } else {
            f + "() requires two numeric arguments of the same type"@
        },
        RtErr::UnknownFunction(f) => "unknown function: "@ + f,
        RtErr::UnsupportedExpression => "unsupported expression in runtime"@,
        RtErr::UnsupportedReal => "real numbers are not supported at runtime"@,
        RtErr::CannotIndexInto => "cannot index into this value"@,
        RtErr::InvalidMapKey => "value cannot be used as a map key"@,
        RtErr::IncompatibleCompound => "incompatible types for compound operation"@,
        RtErr::AssertionFailed => "assertion failed"@,
        RtErr::NonExhaustiveMatch => "non-exhaustive match at runtime"@,
        RtErr::PreconditionFailed(t) => "precondition failed for transition '"@ + t + "'"@,
        RtErr::PostconditionFailed(t) => "postcondition failed for transition '"@ + t + "'"@,
        RtErr::InvariantViolated { invariant_name, transition_name } => "invariant '"@ + invariant_name
            + "' violated after transition '"@ + transition_name + "'"@,
    }
}

impl RuntimeError {
    /// The message the error is reported with; see [`error_message`].
    pub fn message(&self) -> (s: String)
        ensures
            s@ == error_message(self@),
    {
        match self {
            RuntimeError::UndefinedVariable(n) => concat2("undefined variable: ", n.as_str()),
            RuntimeError::NegateNonNumeric => String::from_str("cannot negate non-numeric value"),
            RuntimeError::NegateNonBoolean => String::from_str("cannot negate non-boolean value"),
            RuntimeError::InvalidOperator(k) => match k {
                OperandKind::Integers => concat2("invalid operator for ", "integers"),
                OperandKind::Booleans => concat2("invalid operator for ", "booleans"),
                OperandKind::Strings => concat2("invalid operator for ", "strings"),
                OperandKind::Enums => concat2("invalid operator for ", "enums"),
            },
            RuntimeError::IncompatibleOperands => String::from_str("incompatible types for binary operation"),
            RuntimeError::DivisionByZero => String::from_str("division by zero"),
            RuntimeError::Overflow => String::from_str("integer overflow"),
            RuntimeError::OldOutsidePostcondition => String::from_str("old() can only be used in postconditions"),
            RuntimeError::FieldNotFound(f) => concat3("field '", f.as_str(), "' not found"),
            RuntimeError::NotARecord => String::from_str("cannot access field on non-record value"),
            RuntimeError::IndexOutOfBounds { index, len } => {
                let head = concat3("array index ", int_to_text(*index).as_str(), " out of bounds (len ");
                let n = usize_to_text(*len);
                concat3(head.as_str(), n.as_str(), ")")
            },
            RuntimeError::IndexOutOfRange(i) => concat3("index ", int_to_text(*i).as_str(), " out of bounds"),
            RuntimeError::KeyNotFound(k) => concat3("key '", k.as_str(), "' not found"),
            RuntimeError::InvalidIndexAccess => String::from_str("invalid index access"),
            RuntimeError::QuantifierNeedsRange => String::from_str("quantifier requires a range domain in runtime"),
            RuntimeError::QuantifierBoundNotInt => String::from_str("range bounds must be integers"),
            RuntimeError::BuiltinArgument(f) => {
                if *f == String::from_str("abs") {
                    String::from_str("abs() requires a numeric argument")
                } else {
                    concat2(f.as_str(), "() requires two numeric arguments of the same type")
                }
            },
            RuntimeError::UnknownFunction(f) => concat2("unknown function: ", f.as_str()),
            RuntimeError::UnsupportedExpression => String::from_str("unsupported expression in runtime"),
            RuntimeError::UnsupportedReal => String::from_str("real numbers are not supported at runtime"),
            RuntimeError::CannotIndexInto => String::from_str("cannot index into this value"),
            RuntimeError::InvalidMapKey => String::from_str("value cannot be used as a map key"),
            RuntimeError::IncompatibleCompound => String::from_str("incompatible types for compound operation"),
            RuntimeError::AssertionFailed => String::from_str("assertion failed"),
            RuntimeError::NonExhaustiveMatch => String::from_str("non-exhaustive match at runtime"),
            RuntimeError::PreconditionFailed(t) => concat3("precondition failed for transition '", t.as_str(), "'"),
            RuntimeError::PostconditionFailed(t) => concat3("postcondition failed for transition '", t.as_str(), "'"),
            RuntimeError::InvariantViolated { invariant_name, transition_name } => {
                let head = concat3("invariant '", invariant_name.as_str(), "' violated after transition '");
                concat3(head.as_str(), transition_name.as_str(), "'")
            },
        }
    }
}

} // verus!
