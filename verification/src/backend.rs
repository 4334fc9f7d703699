//! The [`Backend`] abstraction and the [`Bytecode`] reference backend.

use crate::error::CodegenError;
use crate::ir::{ir_model, read_function};
use crate::lower::{lower, lower_spec};
use crate::outside::{ir_block_count, ir_validation, validate};
use crate::program::Program;
use ir_lang::Function;
use vstd::prelude::*;

verus! {

/// A code generator: lowers a function in SSA form to a concrete target
/// representation, named by [`Output`](Backend::Output).
///
/// A backend's `compile` rejects input it cannot lower; the convention is to call
/// `Function::validate` first and return [`CodegenError::InvalidIr`] on failure.
pub trait Backend {
    /// The representation this backend emits.
    type Output;

    /// Lowers `func` to this backend's output.
    fn compile(&self, func: &Function) -> Result<Self::Output, CodegenError>;
}

/// The reference backend: lowers a function to a flat, register-based [`Program`].
#[derive(Clone, Copy, Debug, Default, PartialEq, Eq, Hash)]
pub struct Bytecode;

/// What lowering `func` with the bytecode backend gives: the lowered program when
/// `Function::validate` accepts it, and otherwise its validation error, wrapped.
pub open spec fn compiled(func: Function, res: Result<Program, CodegenError>) -> bool {
    match ir_validation(func) {
        Ok(_) => res matches Ok(p) && p@ == lower_spec(ir_model(func)),
        Err(reason) => res == Err::<Program, CodegenError>(CodegenError::InvalidIr(reason)),
    }
}

impl Backend for Bytecode {
    type Output = Program;

    fn compile(&self, func: &Function) -> (res: Result<Program, CodegenError>)
        ensures
            compiled(*func, res),
            res is Ok ==> ir_model(*func).well_formed(),
    {
        match validate(func) {
            Ok(()) => {},
            Err(reason) => {
                return Err(CodegenError::InvalidIr(reason));
            },
        }
        let ir = read_function(func);
        proof {
            let count = ir_block_count(*func);
            assert((count as u32) as usize <= count) by (bit_vector);
        }
        Ok(lower(&ir))
    }
}

/// Lowers a function to bytecode with the default [`Bytecode`] backend.
pub fn compile(func: &Function) -> (res: Result<Program, CodegenError>)
    ensures
        compiled(*func, res),
        res is Ok ==> ir_model(*func).well_formed(),
{
    Bytecode.compile(func)
}

} // verus!
