//! The items of `ir_lang` that the library calls, with what is known of them.
//!
//! Everything here is trusted: each wrapper's contract restates what the
//! `ir_lang` source shows of the function it calls, over names for results that
//! are functions of their arguments alone.

use crate::ir::{ExitShape, IrExit, IrInst, ir_model};
use ir_lang::{BinOp, Block, Function, Inst, Terminator, UnOp, ValidationError, Value};
use vstd::prelude::*;

verus! {

/// `ir_lang::Function`, opaque here.
#[verifier::external_type_specification]
#[verifier::external_body]
pub struct ExFunction(Function);

/// `ir_lang::Block`, a block handle, opaque here.
#[verifier::external_type_specification]
#[verifier::external_body]
pub struct ExBlock(Block);

/// `ir_lang::Value`, a value handle, opaque here.
#[verifier::external_type_specification]
#[verifier::external_body]
pub struct ExValue(ir_lang::Value);

/// `ir_lang::ValidationError`, the reason a function is rejected, opaque here.
#[verifier::external_type_specification]
#[verifier::external_body]
pub struct ExValidationError(ValidationError);

/// `ir_lang::BinOp`, carried unchanged into the bytecode.
#[verifier::external_type_specification]
#[verifier::external_body]
pub struct ExBinOp(BinOp);

/// `ir_lang::UnOp`, carried unchanged into the bytecode.
#[verifier::external_type_specification]
#[verifier::external_body]
pub struct ExUnOp(UnOp);

/// The `Clone` that `ValidationError` derives: a copy equal to the value cloned.
pub assume_specification[ <ValidationError as Clone>::clone ](err: &ValidationError) -> (res: ValidationError)
    ensures
        res == *err,
;

/// What `Function::validate` returns for a function.
pub uninterp spec fn ir_validation(func: Function) -> Result<(), ValidationError>;

/// What `Function::name` returns.
pub uninterp spec fn ir_name(func: Function) -> Seq<char>;

/// The index of the block `Function::entry` returns.
pub uninterp spec fn ir_entry(func: Function) -> usize;

/// What `Function::block_count` returns.
pub uninterp spec fn ir_block_count(func: Function) -> usize;

/// What `Function::value_count` returns.
pub uninterp spec fn ir_value_count(func: Function) -> usize;

/// What `Block::index` returns.
pub uninterp spec fn ir_block_index(block: Block) -> usize;

/// What `Value::index` returns.
pub uninterp spec fn ir_value_index(value: Value) -> usize;

/// The indices of the values `Function::block_params` returns for the block with
/// the given index.
pub uninterp spec fn ir_block_params(func: Function, block: usize) -> Seq<usize>;

/// The indices of the values `Function::insts` returns for the block with the
/// given index.
pub uninterp spec fn ir_block_insts(func: Function, block: usize) -> Seq<usize>;

/// What `Function::inst` returns for the value with the given index, operands by
/// index and a float constant by its bits.
pub uninterp spec fn ir_inst(func: Function, value: usize) -> Option<IrInst>;

/// What `Function::terminator` returns for the block with the given index, handles
/// by index.
pub uninterp spec fn ir_terminator(func: Function, block: usize) -> Option<ExitShape>;

/// The text that the `Display` of `BinOp` writes.
pub uninterp spec fn ir_binop_text(op: BinOp) -> Seq<char>;

/// The text that the `Display` of `UnOp` writes.
pub uninterp spec fn ir_unop_text(op: UnOp) -> Seq<char>;

/// The text that the `Display` of `ValidationError` writes.
pub uninterp spec fn ir_validation_text(err: ValidationError) -> Seq<char>;

/// `Function::validate`. Its result is named; where it accepts the function, the
/// checks its source makes hold: the entry block exists, every block it walks ends
/// in a terminator, every listed instruction value has an instruction, every value
/// an instruction, terminator or edge names is in range, and every edge targets an
/// existing block with one argument per parameter. Nothing is stated of its other
/// checks (types, dominance, the entry block having no predecessors).
#[verifier::external_body]
pub(crate) fn validate(func: &Function) -> (res: Result<(), ValidationError>)
    ensures
        res == ir_validation(*func),
        res is Ok ==> ir_model(*func).well_formed(),
{
    func.validate()
}

/// `Function::name`.
#[verifier::external_body]
pub(crate) fn function_name(func: &Function) -> (res: String)
    ensures
        res@ == ir_name(*func),
{
    String::from(func.name())
}

/// `Function::entry`: the entry block's handle.
#[verifier::external_body]
pub(crate) fn entry(func: &Function) -> (res: Block)
    ensures
        ir_block_index(res) == ir_entry(*func),
{
    func.entry()
}

/// `Function::block_count`.
#[verifier::external_body]
pub(crate) fn block_count(func: &Function) -> (res: usize)
    ensures
        res == ir_block_count(*func),
{
    func.block_count()
}

/// `Function::value_count`.
#[verifier::external_body]
pub(crate) fn value_count(func: &Function) -> (res: usize)
    ensures
        res == ir_value_count(*func),
{
    func.value_count()
}

/// `Function::blocks`: one handle per block, in index order. Its source counts
/// the blocks as a `u32`, so it yields the block count taken as a `u32`.
#[verifier::external_body]
pub(crate) fn blocks(func: &Function) -> (res: Vec<Block>)
    ensures
        res@.len() == (ir_block_count(*func) as u32) as nat,
        forall|i: int| 0 <= i < res@.len() ==> ir_block_index(#[trigger] res@[i]) == i,
{
    func.blocks().collect()
}

/// `Block::index`: the handle's number, which a block holds as a `u32`.
#[verifier::external_body]
pub(crate) fn block_index(block: Block) -> (res: usize)
    ensures
        res == ir_block_index(block),
        res <= u32::MAX,
{
    block.index()
}

/// `Value::index`: the handle's number, which a value holds as a `u32`.
#[verifier::external_body]
pub(crate) fn value_index(value: Value) -> (res: usize)
    ensures
        res == ir_value_index(value),
        res <= u32::MAX,
{
    value.index()
}

/// `Function::block_params`, which reads the block by its index.
#[verifier::external_body]
pub(crate) fn block_params(func: &Function, block: Block) -> (res: Vec<Value>)
    ensures
        res@.map_values(|v: Value| ir_value_index(v)) == ir_block_params(
            *func,
            ir_block_index(block),
        ),
{
    func.block_params(block).to_vec()
}

/// `Function::insts`, which reads the block by its index.
#[verifier::external_body]
pub(crate) fn block_insts(func: &Function, block: Block) -> (res: Vec<Value>)
    ensures
        res@.map_values(|v: Value| ir_value_index(v)) == ir_block_insts(
            *func,
            ir_block_index(block),
        ),
{
    func.insts(block).to_vec()
}

/// `Function::inst`, which reads the value by its index; operand handles become
/// their indices and a float constant its bits.
#[verifier::external_body]
pub(crate) fn value_inst(func: &Function, value: Value) -> (res: Option<IrInst>)
    ensures
        res == ir_inst(*func, ir_value_index(value)),
{
    match func.inst(value) {
        None => None,
        Some(Inst::Iconst(v)) => Some(IrInst::Iconst(*v)),
        Some(Inst::Fconst(v)) => Some(IrInst::Fconst(v.to_bits())),
        Some(Inst::Bconst(v)) => Some(IrInst::Bconst(*v)),
        Some(Inst::Bin(op, l, r)) => Some(IrInst::Bin(*op, l.index(), r.index())),
        Some(Inst::Un(op, s)) => Some(IrInst::Un(*op, s.index())),
    }
}

/// `Function::terminator`, which reads the block by its index.
#[verifier::external_body]
pub(crate) fn terminator(func: &Function, block: Block) -> (res: Option<IrExit>)
    ensures
        match res {
            Some(e) => ir_terminator(*func, ir_block_index(block)) == Some(e.shape()),
            None => ir_terminator(*func, ir_block_index(block)) is None,
        },
{
    match func.terminator(block) {
        None => None,
        Some(Terminator::Return(v)) => Some(IrExit::Return(*v)),
        Some(Terminator::Jump(t, args)) => Some(IrExit::Jump(*t, args.clone())),
        Some(Terminator::Branch { cond, then_block, then_args, else_block, else_args }) => Some(
            IrExit::Branch(*cond, *then_block, then_args.clone(), *else_block, else_args.clone()),
        ),
    }
}

/// The `Display` text of a `BinOp`.
#[verifier::external_body]
pub(crate) fn binop_text(op: BinOp) -> (res: String)
    ensures
        res@ == ir_binop_text(op),
{
    op.to_string()
}

/// The `Display` text of a `UnOp`.
#[verifier::external_body]
pub(crate) fn unop_text(op: UnOp) -> (res: String)
    ensures
        res@ == ir_unop_text(op),
{
    op.to_string()
}

/// The `Display` text of a `ValidationError`.
#[verifier::external_body]
pub(crate) fn validation_text(err: &ValidationError) -> (res: String)
    ensures
        res@ == ir_validation_text(*err),
{
    err.to_string()
}

} // verus!
