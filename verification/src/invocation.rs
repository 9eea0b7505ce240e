//! The invocation: picking the pattern out of the arguments that the caller
//! wrote.

use vstd::prelude::*;

verus! {

/// How deep below the pattern's base the walker descends.
pub const MAX_DEPTH: usize = 10;

/// Whether the walker follows symbolic links.
pub const FOLLOW_LINKS: bool = true;

/// One argument of the invocation, as far as the bundler tells arguments
/// apart: a string literal with its value, or anything else.
#[derive(Debug, PartialEq, Eq)]
pub enum Argument {
    StringLiteral(String),
    Other,
}

/// Why an invocation gives no pattern.
#[derive(Debug, PartialEq, Eq)]
pub enum InvocationError {
    /// The invocation does not hold exactly one argument.
    AmbiguousAttribute,
    /// The one argument is not a string literal.
    MalformedInvocation,
}

impl InvocationError {
    /// The words in which the failure is reported at the invocation site.
    pub fn message(&self) -> (text: String)
        ensures
            self is AmbiguousAttribute ==> text@ == "Exactly one attribute was expected"@,
            self is MalformedInvocation ==> text@ == "String literal was expected"@,
    {
        match self {
            InvocationError::AmbiguousAttribute => "Exactly one attribute was expected".to_owned(),
            InvocationError::MalformedInvocation => "String literal was expected".to_owned(),
        }
    }
}

/// The pattern of an invocation: the value of its one argument, which must be
/// a string literal.
pub fn select_pattern(arguments: Vec<Argument>) -> (pattern: Result<String, InvocationError>)
    ensures
        match pattern {
            Ok(text) => arguments.len() == 1 && arguments[0] == Argument::StringLiteral(text),
            Err(InvocationError::AmbiguousAttribute) => arguments.len() != 1,
            Err(InvocationError::MalformedInvocation) => arguments.len() == 1 && arguments[0]
                is Other,
        },
{
    let mut arguments = arguments;
    if arguments.len() != 1 {
        return Err(InvocationError::AmbiguousAttribute);
    }
    match arguments.pop() {
        Some(Argument::StringLiteral(text)) => Ok(text),
        _ => Err(InvocationError::MalformedInvocation),
    }
}

} // verus!
