//! The errors that end an assembly, and their messages.

use crate::number::{decimal, Number};
use crate::text::string_of;
use vstd::prelude::*;
use vstd::string::StringExecFns;

verus! {

/// Why a source could not be assembled.
#[derive(Clone, Debug, PartialEq, Eq)]
pub enum AssemblyError {
    /// The label is declared a second time.
    DuplicateLabel(String),
    /// The symbol is used and nowhere declared.
    UnknownSymbol(String),
    /// A value lies outside the range that its place allows.
    OutOfBoundValue { actual: Number, min: Number, max: Number },
    /// Neither a directive nor an instruction begins at the fragment.
    AssemblyStuck(String),
}

/// An [`AssemblyError`] as a mathematical value.
pub enum Failure {
    DuplicateLabel(Seq<char>),
    UnknownSymbol(Seq<char>),
    OutOfBoundValue { actual: int, min: int, max: int },
    AssemblyStuck(Seq<char>),
}

impl View for AssemblyError {
    type V = Failure;

    open spec fn view(&self) -> Failure {
        match *self {
            AssemblyError::DuplicateLabel(name) => Failure::DuplicateLabel(name@),
            AssemblyError::UnknownSymbol(name) => Failure::UnknownSymbol(name@),
            AssemblyError::OutOfBoundValue { actual, min, max } => Failure::OutOfBoundValue {
                actual: actual@,
                min: min@,
                max: max@,
            },
            AssemblyError::AssemblyStuck(fragment) => Failure::AssemblyStuck(fragment@),
        }
    }
}

/// The message of a failure.
pub open spec fn message_of(failure: Failure) -> Seq<char> {
    match failure {
        Failure::DuplicateLabel(name) => "'"@ + name + "' defined twice"@,
        Failure::UnknownSymbol(name) => "Unknown label: "@ + name,
        Failure::OutOfBoundValue { actual, min, max } => "Invalid Value (Should be "@ + decimal(min)
            + " - "@ + decimal(max) + "): "@ + decimal(actual),
        Failure::AssemblyStuck(fragment) => "Unable to assemble: "@ + fragment,
    }
}

impl AssemblyError {
    /// The message of the error.
    pub fn message(&self) -> (text: String)
        ensures
            text@ == message_of(self@),
    {
        match self {
            AssemblyError::DuplicateLabel(name) => {
                let mut text: String = String::from_str("'");
                text.append(name.as_str());
                text.append("' defined twice");
                text
            },
            AssemblyError::UnknownSymbol(name) => {
                let mut text: String = String::from_str("Unknown label: ");
                text.append(name.as_str());
                text
            },
            AssemblyError::OutOfBoundValue { actual, min, max } => {
                let mut text: String = String::from_str("Invalid Value (Should be ");
                text.append(string_of(min.to_decimal().as_slice()).as_str());
                text.append(" - ");
                text.append(string_of(max.to_decimal().as_slice()).as_str());
                text.append("): ");
                text.append(string_of(actual.to_decimal().as_slice()).as_str());
                text
            },
            AssemblyError::AssemblyStuck(fragment) => {
                let mut text: String = String::from_str("Unable to assemble: ");
                text.append(fragment.as_str());
                text
            },
        }
    }
}

} // verus!
