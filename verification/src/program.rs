//! The compiled program and the bytecode it is made of.

use ir_lang::{BinOp, UnOp};
use vstd::prelude::*;

verus! {

/// A virtual register: a numbered slot that holds one value while a program runs.
///
/// Every value the source function defines has its own register, numbered by the
/// value's index. A scratch register, used only to break a cycle among the copies
/// that pass a block's arguments, comes after the values'.
/// [`Program::register_count`] counts them all.
#[derive(Clone, Copy, PartialEq, Eq, PartialOrd, Ord, Hash, Debug, Structural)]
pub struct Reg(pub u32);

/// A jump target: a position in a program's op stream.
///
/// Each basic block is a label numbered by its block index, so the entry block is
/// `Label(0)`; a two-way branch appends one label past the block labels for its
/// second arm. [`Program::label_offset`] resolves a label to an op index.
#[derive(Clone, Copy, PartialEq, Eq, PartialOrd, Ord, Hash, Debug, Structural)]
pub struct Label(pub u32);

/// A constant operand loaded by [`Op::Const`].
///
/// The cases mirror the IR's constant instructions and carry the same payloads; a
/// floating-point constant is held by the bits of its `f64`, so it is reproduced
/// exactly.
#[derive(Clone, Copy, PartialEq, Debug)]
pub enum Const {
    /// A signed-integer constant.
    Int(i64),
    /// A floating-point constant, by the bits of its `f64`.
    Float(u64),
    /// A boolean constant.
    Bool(bool),
}

/// One bytecode instruction.
#[derive(Clone, Copy, PartialEq, Debug)]
pub enum Op {
    /// Load a constant into `dst`.
    Const { dst: Reg, value: Const },
    /// `dst = lhs <op> rhs`.
    Bin { op: BinOp, dst: Reg, lhs: Reg, rhs: Reg },
    /// `dst = <op> src`.
    Un { op: UnOp, dst: Reg, src: Reg },
    /// `dst = src`: passes a block argument into a parameter register on an edge.
    Move { dst: Reg, src: Reg },
    /// Jump unconditionally to `target`.
    Jump { target: Label },
    /// Jump to `target` when `cond` holds `false`; otherwise fall through.
    JumpUnless { cond: Reg, target: Label },
    /// Return, optionally yielding the value in a register.
    Return { value: Option<Reg> },
}

/// A lowered function: its name, its parameter registers, how many registers it
/// uses, its op stream, and where each label points in that stream.
#[derive(Clone, PartialEq, Debug)]
pub struct Program {
    pub(crate) name: String,
    pub(crate) params: Vec<Reg>,
    pub(crate) registers: u32,
    pub(crate) ops: Vec<Op>,
    pub(crate) labels: Vec<u32>,
}

/// The mathematical form of a [`Program`].
pub struct ProgramModel {
    pub name: Seq<char>,
    pub params: Seq<Reg>,
    pub registers: u32,
    pub ops: Seq<Op>,
    pub labels: Seq<u32>,
}

impl View for Program {
    type V = ProgramModel;

    closed spec fn view(&self) -> ProgramModel {
        ProgramModel {
            name: self.name@,
            params: self.params@,
            registers: self.registers,
            ops: self.ops@,
            labels: self.labels@,
        }
    }
}

impl ProgramModel {
    /// The op index a label points at, if the label belongs to the program.
    pub open spec fn label_offset(self, label: Label) -> Option<int> {
        if (label.0 as int) < self.labels.len() {
            Some(self.labels[label.0 as int] as int)
        } else {
            None
        }
    }
}

impl Program {
    /// Assembles a program from its parts: a name, the parameter registers, the
    /// register count, the ops, and the op index of each label. This is how a
    /// program that was stored elsewhere is rebuilt.
    pub fn from_parts(
        name: String,
        params: Vec<Reg>,
        registers: u32,
        ops: Vec<Op>,
        labels: Vec<u32>,
    ) -> (res: Program)
        ensures
            res@ == (ProgramModel {
                name: name@,
                params: params@,
                registers,
                ops: ops@,
                labels: labels@,
            }),
    {
        Program { name, params, registers, ops, labels }
    }

    /// The function's name.
    pub fn name(&self) -> (res: &str)
        ensures
            res@ == self@.name,
    {
        self.name.as_str()
    }

    /// The registers holding the function's parameters, in declaration order.
    pub fn params(&self) -> (res: &[Reg])
        ensures
            res@ == self@.params,
    {
        self.params.as_slice()
    }

    /// The number of registers the program uses.
    pub fn register_count(&self) -> (res: u32)
        ensures
            res == self@.registers,
    {
        self.registers
    }

    /// The program's ops, in execution order.
    pub fn ops(&self) -> (res: &[Op])
        ensures
            res@ == self@.ops,
    {
        self.ops.as_slice()
    }

    /// The number of ops.
    pub fn len(&self) -> (res: usize)
        ensures
            res == self@.ops.len(),
    {
        self.ops.len()
    }

    /// Whether the program has no ops.
    pub fn is_empty(&self) -> (res: bool)
        ensures
            res == (self@.ops.len() == 0),
    {
        self.ops.len() == 0
    }

    /// The op index `label` points at, or `None` when the label does not belong to
    /// this program.
    pub fn label_offset(&self, label: Label) -> (res: Option<usize>)
        ensures
            match res {
                Some(o) => self@.label_offset(label) == Some(o as int),
                None => self@.label_offset(label) is None,
            },
    {
        let index = label.0 as usize;
        if index < self.labels.len() {
            Some(self.labels[index] as usize)
        } else {
            None
        }
    }

    /// The op index of each label, by label number.
    pub fn label_offsets(&self) -> (res: &[u32])
        ensures
            res@ == self@.labels,
    {
        self.labels.as_slice()
    }

    /// The entry label, where execution begins: always `L0`.
    pub fn entry(&self) -> (res: Label)
        ensures
            res == Label(0),
    {
        Label(0)
    }
}

} // verus!
