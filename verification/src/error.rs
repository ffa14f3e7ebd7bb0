//! Errors of planning and solving.

use crate::util::{decimal, usize_to_string};
use vstd::prelude::*;

verus! {

/// The mutability of the argument did not match
/// the mutability that the method expected.
#[derive(Copy, Clone, Debug, PartialEq, Eq, Structural)]
pub enum MutabilityMismatch {
    /// Expected an immutable reference, but got a mutable one.
    ExpectedImmutableGotMutable,
    /// Expected a mutable reference, but got an immutable one.
    ExpectedMutableGotImmutable,
}

/// The potential errors from performing a method call.
#[derive(Debug, PartialEq, Eq, Clone)]
pub enum MethodFailure {
    /// An attempt to use a variable that does not exist.
    NoSuchVariable(String),
    /// Failure to convert a variable into the specified type.
    TypeConversionFailure(String, String),
    /// The constraint satisfaction method received too few or too many values as input.
    WrongInputCount(usize, usize),
    /// The constraint satisfaction method returned too few or too many values as output.
    WrongOutputCount(usize, usize),
    /// A custom error from the programmer.
    Custom(String),
    /// A reference had the wrong mutability.
    MutabilityMismatch(MutabilityMismatch),
}

/// Errors that can occur during planning.
#[derive(Copy, Clone, Debug, PartialEq, Eq, Structural)]
pub enum PlanError {
    /// The system was overconstrained, and no plan was found.
    Overconstrained,
}

/// A description of what went wrong during solving.
#[derive(Clone, Debug, PartialEq)]
pub enum Reason {
    /// A precondition did not hold before enforcing a constraint.
    PreConditionFailure(String),
    /// A postcondition did not hold after enforcing a constraint.
    PostConditionFailure(String),
    /// A method failed to execute. See [`MethodFailure`].
    MethodFailure(MethodFailure),
}

/// Information about an error that occured during solving.
#[derive(Clone, Debug, PartialEq)]
pub struct SolveError {
    component: String,
    constraint: String,
    method: String,
    reason: Reason,
}

impl SolveError {
    /// Constructs a new [`SolveError`] with location information (`component`, `constraint`, and `method`),
    /// as well as a [`Reason`] describing what went wrong.
    pub fn new(component: String, constraint: String, method: String, reason: Reason) -> (r: Self)
        ensures
            r.component() == component@,
            r.constraint() == constraint@,
            r.method() == method@,
            r.reason() == reason,
    {
        Self { component, constraint, method, reason }
    }

    /// The component the error happened in.
    pub closed spec fn component(&self) -> Seq<char> {
        self.component@
    }

    /// The constraint the error happened in.
    pub closed spec fn constraint(&self) -> Seq<char> {
        self.constraint@
    }

    /// The method that failed.
    pub closed spec fn method(&self) -> Seq<char> {
        self.method@
    }

    /// What went wrong.
    pub closed spec fn reason(&self) -> Reason {
        self.reason
    }
}

/// The text that describes a failure of a method.
pub open spec fn failure_text(mf: MethodFailure) -> Seq<char> {
    match mf {
        MethodFailure::NoSuchVariable(name) => "Unknown variable "@ + name@ + "."@,
        MethodFailure::TypeConversionFailure(name, ty) => "Variable "@ + name@ + " could not be converted to "@ + ty@ + "."@,
        MethodFailure::WrongInputCount(expected, actual) => "Method takes "@ + decimal(expected as nat) + " input(s), but got "@
            + decimal(actual as nat) + "."@,
        MethodFailure::WrongOutputCount(expected, actual) => "Method takes "@ + decimal(expected as nat) + " output(s), but got "@
            + decimal(actual as nat) + "."@,
        MethodFailure::Custom(msg) => msg@,
        MethodFailure::MutabilityMismatch(mm) => match mm {
            MutabilityMismatch::ExpectedImmutableGotMutable => "Expected immutable reference, got mutable"@,
            MutabilityMismatch::ExpectedMutableGotImmutable => "Expected mutable reference, got immutable"@,
        },
    }
}

/// The text that describes what went wrong.
pub open spec fn reason_text(reason: Reason) -> Seq<char> {
    match reason {
        Reason::PreConditionFailure(name) => "Precondition "@ + name@ + " did not hold."@,
        Reason::PostConditionFailure(name) => "Postcondition "@ + name@ + " did not hold."@,
        Reason::MethodFailure(mf) => failure_text(mf),
    }
}

/// `a`, followed by `b`.
fn concat(a: String, b: &str) -> (r: String)
    ensures
        r@ == a@ + b@,
{
    let mut a = a;
    a.append(b);
    a
}

/// Returns the text that describes a failure of a method.
fn describe_failure(mf: &MethodFailure) -> (r: String)
    ensures
        r@ == failure_text(*mf),
{
    match mf {
        MethodFailure::NoSuchVariable(name) => concat(concat(String::from_str("Unknown variable "), name.as_str()), "."),
        MethodFailure::TypeConversionFailure(name, ty) => concat(
            concat(concat(concat(String::from_str("Variable "), name.as_str()), " could not be converted to "), ty.as_str()),
            ".",
        ),
        MethodFailure::WrongInputCount(expected, actual) => {
            let e = usize_to_string(*expected);
            let a = usize_to_string(*actual);
            concat(concat(concat(concat(String::from_str("Method takes "), e.as_str()), " input(s), but got "), a.as_str()), ".")
        },
        MethodFailure::WrongOutputCount(expected, actual) => {
            let e = usize_to_string(*expected);
            let a = usize_to_string(*actual);
            concat(concat(concat(concat(String::from_str("Method takes "), e.as_str()), " output(s), but got "), a.as_str()), ".")
        },
        MethodFailure::Custom(msg) => msg.clone(),
        MethodFailure::MutabilityMismatch(mm) => match mm {
            MutabilityMismatch::ExpectedImmutableGotMutable => String::from_str("Expected immutable reference, got mutable"),
            MutabilityMismatch::ExpectedMutableGotImmutable => String::from_str("Expected mutable reference, got immutable"),
        },
    }
}

impl SolveError {
    /// The text that describes the error: where it happened, and what went wrong.
    pub open spec fn text(&self) -> Seq<char> {
        self.component() + "."@ + self.constraint() + "."@ + self.method() + ": "@ + reason_text(self.reason())
    }

    /// Returns the text that describes the error: the component, constraint and method it happened
    /// in, separated by dots, then a colon and what went wrong.
    pub fn to_string(&self) -> (r: String)
        ensures
            r@ == self.text(),
    {
        let message = match &self.reason {
            Reason::PreConditionFailure(name) => concat(
                concat(String::from_str("Precondition "), name.as_str()),
                " did not hold.",
            ),
            Reason::PostConditionFailure(name) => concat(
                concat(String::from_str("Postcondition "), name.as_str()),
                " did not hold.",
            ),
            Reason::MethodFailure(mf) => describe_failure(mf),
        };
        let r = concat(
            concat(
                concat(concat(concat(self.component.clone(), "."), self.constraint.as_str()), "."),
                self.method.as_str(),
            ),
            ": ",
        );
        concat(r, message.as_str())
    }
}

/// Errors that can happen in a component.
#[derive(Copy, Clone, Debug, PartialEq, Eq, Structural)]
pub enum ComponentError {
    /// No variable of the specified name exists.
    NoSuchVariable,
}

} // verus!
