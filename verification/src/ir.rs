//! The function being lowered, held as plain values.
//!
//! An `ir_lang::Function` is opaque to the verifier, so lowering works on an
//! [`IrFunction`]: the parts of the function that lowering reads, with values and
//! blocks named by their dense indices. [`read_function`] reads one from a
//! `Function` through its accessors.

use crate::outside::{
    block_count, block_index, block_insts, block_params, blocks, entry, function_name, ir_block_count,
    ir_block_index, ir_block_insts, ir_block_params, ir_entry, ir_inst, ir_name, ir_terminator,
    ir_value_count, ir_value_index, terminator, value_count, value_index, value_inst,
};
use ir_lang::{BinOp, Block, Function, UnOp, Value};
use vstd::prelude::*;

verus! {

/// A value-producing instruction, with its operands named by value index.
///
/// A floating-point constant is held by its bit pattern, so it is carried through
/// exactly.
#[derive(Clone, Copy, PartialEq, Debug)]
pub enum IrInst {
    /// An integer constant.
    Iconst(i64),
    /// A floating-point constant, by the bits of its `f64`.
    Fconst(u64),
    /// A boolean constant.
    Bconst(bool),
    /// A binary operation over two values.
    Bin(BinOp, usize, usize),
    /// A unary operation over one value.
    Un(UnOp, usize),
}

/// A control-flow edge: the block it enters, the values it passes, and the
/// parameters of the entered block that receive them.
#[derive(Clone, Debug)]
pub struct IrEdge {
    /// Index of the target block.
    pub target: usize,
    /// The values passed, by index.
    pub args: Vec<usize>,
    /// The target block's parameter values, by index.
    pub params: Vec<usize>,
}

/// The terminator that ends a block.
#[derive(Clone, Debug)]
pub enum IrTerminator {
    /// Return, optionally with a value.
    Return(Option<usize>),
    /// Jump along one edge.
    Jump(IrEdge),
    /// Take `then_edge` when `cond` holds, `else_edge` otherwise.
    Branch { cond: usize, then_edge: IrEdge, else_edge: IrEdge },
}

/// A basic block: its instructions in program order, then its terminator.
///
/// Each instruction entry is the index of the value it defines and the
/// instruction, or `None` where the function records no instruction for it.
#[derive(Clone, Debug)]
pub struct IrBlock {
    /// The instruction values in program order, each with its instruction.
    pub insts: Vec<(usize, Option<IrInst>)>,
    /// The block's terminator, if one was set.
    pub terminator: Option<IrTerminator>,
}

/// A function as lowering reads it.
#[derive(Clone, Debug)]
pub struct IrFunction {
    /// The function's name.
    pub name: String,
    /// Index of the entry block.
    pub entry: usize,
    /// The entry block's parameter values: the function's parameters.
    pub entry_params: Vec<usize>,
    /// The number of values the function defines.
    pub value_count: usize,
    /// The number of blocks the function holds.
    pub block_count: usize,
    /// The blocks, in creation order.
    pub blocks: Vec<IrBlock>,
}

/// The mathematical form of an [`IrEdge`].
pub struct EdgeModel {
    pub target: usize,
    pub args: Seq<usize>,
    pub params: Seq<usize>,
}

/// The mathematical form of an [`IrTerminator`].
pub enum TermModel {
    Return(Option<usize>),
    Jump(EdgeModel),
    Branch { cond: usize, then_edge: EdgeModel, else_edge: EdgeModel },
}

/// The mathematical form of an [`IrBlock`].
pub struct BlockModel {
    pub insts: Seq<(usize, Option<IrInst>)>,
    pub terminator: Option<TermModel>,
}

/// The mathematical form of an [`IrFunction`].
pub struct FnModel {
    pub name: Seq<char>,
    pub entry: usize,
    pub entry_params: Seq<usize>,
    pub value_count: usize,
    pub block_count: usize,
    pub blocks: Seq<BlockModel>,
}

impl View for IrEdge {
    type V = EdgeModel;

    open spec fn view(&self) -> EdgeModel {
        EdgeModel { target: self.target, args: self.args@, params: self.params@ }
    }
}

impl View for IrTerminator {
    type V = TermModel;

    open spec fn view(&self) -> TermModel {
        match self {
            IrTerminator::Return(v) => TermModel::Return(*v),
            IrTerminator::Jump(e) => TermModel::Jump(e@),
            IrTerminator::Branch { cond, then_edge, else_edge } => TermModel::Branch {
                cond: *cond,
                then_edge: then_edge@,
                else_edge: else_edge@,
            },
        }
    }
}

impl View for IrBlock {
    type V = BlockModel;

    open spec fn view(&self) -> BlockModel {
        BlockModel {
            insts: self.insts@,
            terminator: match self.terminator {
                Some(t) => Some(t@),
                None => None,
            },
        }
    }
}

impl View for IrFunction {
    type V = FnModel;

    open spec fn view(&self) -> FnModel {
        FnModel {
            name: self.name@,
            entry: self.entry,
            entry_params: self.entry_params@,
            value_count: self.value_count,
            block_count: self.block_count,
            blocks: self.blocks@.map_values(|b: IrBlock| b@),
        }
    }
}

impl EdgeModel {
    /// Every value the edge names lies below `n`.
    pub open spec fn values_below(self, n: usize) -> bool {
        &&& forall|i: int| 0 <= i < self.args.len() ==> #[trigger] self.args[i] < n
        &&& forall|i: int| 0 <= i < self.params.len() ==> #[trigger] self.params[i] < n
    }

    /// What `Function::validate` demands of an edge of a function with `blocks`
    /// blocks and `values` values: a real target, one argument per parameter, and
    /// every value in range.
    pub open spec fn well_formed(self, blocks: usize, values: usize) -> bool {
        &&& self.target < blocks
        &&& self.args.len() == self.params.len()
        &&& self.values_below(values)
    }
}

impl IrInst {
    /// Every operand of the instruction lies below `n`.
    pub open spec fn operands_below(self, n: usize) -> bool {
        match self {
            IrInst::Bin(_, l, r) => l < n && r < n,
            IrInst::Un(_, s) => s < n,
            _ => true,
        }
    }
}

impl TermModel {
    /// What `Function::validate` demands of a terminator.
    pub open spec fn well_formed(self, blocks: usize, values: usize) -> bool {
        match self {
            TermModel::Return(v) => v matches Some(x) ==> x < values,
            TermModel::Jump(e) => e.well_formed(blocks, values),
            TermModel::Branch { cond, then_edge, else_edge } => {
                &&& cond < values
                &&& then_edge.well_formed(blocks, values)
                &&& else_edge.well_formed(blocks, values)
            },
        }
    }
}

impl BlockModel {
    /// What `Function::validate` demands of a block: each listed value has an
    /// instruction, values and operands are in range, and a well-formed terminator
    /// ends it.
    pub open spec fn well_formed(self, blocks: usize, values: usize) -> bool {
        &&& forall|j: int|
            0 <= j < self.insts.len() ==> {
                let (v, inst) = #[trigger] self.insts[j];
                &&& v < values
                &&& inst matches Some(i) && i.operands_below(values)
            }
        &&& self.terminator matches Some(t) && t.well_formed(blocks, values)
    }
}

impl FnModel {
    /// The facts about a function that `Function::validate` establishes when it
    /// accepts it, as far as lowering reads them. The validator walks the blocks
    /// that `Function::blocks` yields, so what it checks block by block is stated
    /// of those.
    pub open spec fn well_formed(self) -> bool {
        &&& self.entry < self.block_count
        &&& self.entry < self.blocks.len() ==> forall|i: int|
            0 <= i < self.entry_params.len() ==> #[trigger] self.entry_params[i] < self.value_count
        &&& forall|b: int|
            0 <= b < self.blocks.len() ==> #[trigger] self.blocks[b].well_formed(
                self.block_count,
                self.value_count,
            )
    }
}

/// The shape of an `ir_lang::Terminator`, with handles replaced by their indices.
pub enum ExitShape {
    Return(Option<usize>),
    Jump(usize, Seq<usize>),
    Branch(usize, usize, Seq<usize>, usize, Seq<usize>),
}

/// An `ir_lang::Terminator` as its accessor hands it out: handles kept as handles.
pub enum IrExit {
    Return(Option<Value>),
    Jump(Block, Vec<Value>),
    Branch(Value, Block, Vec<Value>, Block, Vec<Value>),
}

/// The indices of a sequence of value handles.
pub open spec fn value_indices(vs: Seq<Value>) -> Seq<usize> {
    vs.map_values(|v: Value| ir_value_index(v))
}

impl IrExit {
    /// The shape of the terminator, by the indices of its handles.
    pub open spec fn shape(self) -> ExitShape {
        match self {
            IrExit::Return(None) => ExitShape::Return(None),
            IrExit::Return(Some(v)) => ExitShape::Return(Some(ir_value_index(v))),
            IrExit::Jump(t, args) => ExitShape::Jump(ir_block_index(t), value_indices(args@)),
            IrExit::Branch(c, t1, a1, t2, a2) => ExitShape::Branch(
                ir_value_index(c),
                ir_block_index(t1),
                value_indices(a1@),
                ir_block_index(t2),
                value_indices(a2@),
            ),
        }
    }
}

/// The edge into `target` passing `args`, as the function `f` defines it.
pub open spec fn edge_of(f: Function, target: usize, args: Seq<usize>) -> EdgeModel {
    EdgeModel { target, args, params: ir_block_params(f, target) }
}

/// The terminator of block `b` of `f`.
pub open spec fn terminator_of(f: Function, b: usize) -> Option<TermModel> {
    match ir_terminator(f, b) {
        None => None,
        Some(ExitShape::Return(v)) => Some(TermModel::Return(v)),
        Some(ExitShape::Jump(t, args)) => Some(TermModel::Jump(edge_of(f, t, args))),
        Some(ExitShape::Branch(c, t1, a1, t2, a2)) => Some(
            TermModel::Branch { cond: c, then_edge: edge_of(f, t1, a1), else_edge: edge_of(f, t2, a2) },
        ),
    }
}

/// Block `b` of `f`.
pub open spec fn block_of(f: Function, b: usize) -> BlockModel {
    BlockModel {
        insts: ir_block_insts(f, b).map_values(|v: usize| (v, ir_inst(f, v))),
        terminator: terminator_of(f, b),
    }
}

/// The function `f` as lowering reads it. Its blocks are those `Function::blocks`
/// yields, whose count is the block count taken as a `u32`.
pub open spec fn ir_model(f: Function) -> FnModel {
    FnModel {
        name: ir_name(f),
        entry: ir_entry(f),
        entry_params: ir_block_params(f, ir_entry(f)),
        value_count: ir_value_count(f),
        block_count: ir_block_count(f),
        blocks: Seq::new((ir_block_count(f) as u32) as nat, |i: int| block_of(f, i as usize)),
    }
}

/// The indices of a list of value handles.
fn indices_of(vs: &Vec<Value>) -> (res: Vec<usize>)
    ensures
        res@ == value_indices(vs@),
{
    let mut res: Vec<usize> = Vec::new();
    for i in 0..vs.len()
        invariant
            res@ == value_indices(vs@.take(i as int)),
    {
        let ix = value_index(vs[i]);
        res.push(ix);
        assert(value_indices(vs@.take(i + 1)) =~= value_indices(vs@.take(i as int)).push(ix));
    }
    assert(vs@.take(vs.len() as int) =~= vs@);
    res
}

/// The edge from the current block into `target`, passing `args`.
fn read_edge(func: &Function, target: Block, args: &Vec<Value>) -> (res: IrEdge)
    ensures
        res@ == edge_of(*func, ir_block_index(target), value_indices(args@)),
{
    let params = block_params(func, target);
    IrEdge { target: block_index(target), args: indices_of(args), params: indices_of(&params) }
}

/// The terminator of `block`.
fn read_terminator(func: &Function, block: Block) -> (res: Option<IrTerminator>)
    ensures
        match res {
            Some(t) => terminator_of(*func, ir_block_index(block)) == Some(t@),
            None => terminator_of(*func, ir_block_index(block)) is None,
        },
{
    match terminator(func, block) {
        None => None,
        Some(IrExit::Return(None)) => Some(IrTerminator::Return(None)),
        Some(IrExit::Return(Some(v))) => Some(IrTerminator::Return(Some(value_index(v)))),
        Some(IrExit::Jump(t, args)) => Some(IrTerminator::Jump(read_edge(func, t, &args))),
        Some(IrExit::Branch(c, t1, a1, t2, a2)) => Some(
            IrTerminator::Branch {
                cond: value_index(c),
                then_edge: read_edge(func, t1, &a1),
                else_edge: read_edge(func, t2, &a2),
            },
        ),
    }
}

/// The instructions of `block`, each with the value it defines.
fn read_insts(func: &Function, block: Block) -> (res: Vec<(usize, Option<IrInst>)>)
    ensures
        res@ == block_of(*func, ir_block_index(block)).insts,
{
    let values = block_insts(func, block);
    let ghost target = block_of(*func, ir_block_index(block)).insts;
    let mut res: Vec<(usize, Option<IrInst>)> = Vec::new();
    for i in 0..values.len()
        invariant
            value_indices(values@) == ir_block_insts(*func, ir_block_index(block)),
            target == ir_block_insts(*func, ir_block_index(block)).map_values(
                |v: usize| (v, ir_inst(*func, v)),
            ),
            res@ == target.take(i as int),
    {
        let v = values[i];
        let ix = value_index(v);
        let inst = value_inst(func, v);
        res.push((ix, inst));
        assert(res@ =~= target.take(i + 1));
    }
    assert(target.take(values.len() as int) =~= target);
    res
}

/// Reads `func` through its accessors into the plain form that lowering works on.
pub fn read_function(func: &Function) -> (res: IrFunction)
    ensures
        res@ == ir_model(*func),
{
    let handles = blocks(func);
    let ghost n = (ir_block_count(*func) as u32) as nat;
    let mut out: Vec<IrBlock> = Vec::new();
    for i in 0..handles.len()
        invariant
            handles@.len() == n,
            forall|k: int| 0 <= k < n ==> ir_block_index(#[trigger] handles@[k]) == k,
            out@.len() == i,
            forall|k: int| 0 <= k < i ==> (#[trigger] out@[k])@ == block_of(*func, k as usize),
    {
        let h = handles[i];
        let insts = read_insts(func, h);
        let term = read_terminator(func, h);
        let blk = IrBlock { insts, terminator: term };
        assert(blk@ == block_of(*func, i as usize));
        out.push(blk);
    }
    let entry_handle = entry(func);
    let entry_values = block_params(func, entry_handle);
    let res = IrFunction {
        name: function_name(func),
        entry: block_index(entry_handle),
        entry_params: indices_of(&entry_values),
        value_count: value_count(func),
        block_count: block_count(func),
        blocks: out,
    };
    assert(res@.blocks =~= ir_model(*func).blocks);
    res
}

} // verus!
