//! The error a backend reports when it cannot lower a function.

use ir_lang::ValidationError;
use vstd::prelude::*;

verus! {

/// The reason a [`Backend`](crate::Backend) could not lower a function.
///
/// Lowering needs well-formed SSA; a backend checks that up front with
/// `Function::validate` and refuses to emit code for input that fails.
#[derive(Clone, PartialEq, Debug)]
#[non_exhaustive]
pub enum CodegenError {
    /// The input function did not pass `Function::validate`; the wrapped
    /// `ValidationError` names the offending block or value.
    InvalidIr(ValidationError),
}

impl CodegenError {
    /// The underlying cause: the validation error this one wraps.
    pub fn source(&self) -> (res: Option<&ValidationError>)
        ensures
            match *self {
                CodegenError::InvalidIr(reason) => res == Some(&reason),
            },
    {
        match self {
            CodegenError::InvalidIr(reason) => Some(reason),
        }
    }
}

impl From<ValidationError> for CodegenError {
    fn from(reason: ValidationError) -> (res: Self) {
        CodegenError::InvalidIr(reason)
    }
}

impl vstd::std_specs::convert::FromSpecImpl<ValidationError> for CodegenError {
    open spec fn obeys_from_spec() -> bool {
        true
    }

    open spec fn from_spec(reason: ValidationError) -> Self {
        CodegenError::InvalidIr(reason)
    }
}

} // verus!
