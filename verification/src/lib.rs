//! # codegen_lang
//!
//! A backend abstraction that turns the `ir_lang` intermediate representation into
//! code for a concrete target, and the target shipped with it: a small,
//! register-based bytecode.
//!
//! Each IR value is given its own virtual [`Reg`]ister, each basic block becomes a
//! [`Label`] in a flat op stream, and a block's parameters are filled by
//! [`Move`](Op::Move) ops emitted on the edges that target it. [`compile`] checks
//! the function with `Function::validate` first and refuses one that is not
//! well-formed with [`CodegenError::InvalidIr`].
//!
//! A block's arguments are passed as one simultaneous assignment: the copies are
//! ordered so that none overwrites a register still to be read, and only a cycle
//! among them, such as a swap, is broken through a scratch register past the
//! values.
//!
//! The modules state and prove what lowering does: [`lower`] gives the exact
//! program a function lowers to; [`semantics`] proves that the program returns
//! what the function returns, for a valid function whose entry block is block
//! zero and that stays within the bytecode's limits on labels, op offsets and
//! registers; and [`laws`] proves the program's structural soundness.

mod backend;
mod error;
pub mod ir;
pub mod laws;
pub mod layout;
pub mod lower;
pub mod outside;
pub mod program;
pub mod semantics;
pub mod text;

pub use backend::{compiled, Backend, Bytecode, compile};
pub use error::CodegenError;
pub use ir::{IrBlock, IrEdge, IrFunction, IrInst, IrTerminator, read_function};
pub use ir_lang::{BinOp, UnOp};
pub use lower::lower;
pub use program::{Const, Label, Op, Program, Reg};
pub use text::FloatTexts;
