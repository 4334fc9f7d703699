//! Properties checked on many generated functions: codegen must preserve meaning
//! and produce structurally sound output.
//!
//! Straight-line integer functions are generated as small data-flow graphs from a
//! fixed pseudo-random sequence, lowered, and run through the reference
//! interpreter; the result is checked against an independent evaluation of the
//! same graph, and the program against the invariants a backend must uphold.

use codegen_lang::{compile, BinOp, Const, Op, Program, Reg, UnOp};
use ir_lang::{Builder, Type};

/// A runtime value flowing through the registers as a program runs.
#[derive(Clone, Copy, PartialEq, Debug)]
enum Val {
    Int(i64),
    Float(f64),
    Bool(bool),
    Unit,
}

impl Val {
    fn boolean(self) -> bool {
        match self {
            Val::Bool(v) => v,
            other => panic!("expected a bool, found {other:?}"),
        }
    }
}

/// Runs `program` with `args` bound to its parameter registers and returns the
/// value it returns: the reference interpreter the lowered code is checked with.
/// Integer arithmetic wraps so that a run is always defined.
fn run(program: &Program, args: &[Val]) -> Val {
    let mut regs = vec![Val::Unit; program.register_count() as usize];
    for (slot, &arg) in program.params().iter().zip(args) {
        regs[slot.0 as usize] = arg;
    }
    let ops = program.ops();
    let mut pc = program.label_offset(program.entry()).unwrap();
    loop {
        match ops[pc] {
            Op::Const { dst, value } => {
                regs[dst.0 as usize] = constant(value);
                pc += 1;
            }
            Op::Bin { op, dst, lhs, rhs } => {
                regs[dst.0 as usize] = binary(op, regs[lhs.0 as usize], regs[rhs.0 as usize]);
                pc += 1;
            }
            Op::Un { op, dst, src } => {
                regs[dst.0 as usize] = unary(op, regs[src.0 as usize]);
                pc += 1;
            }
            Op::Move { dst, src } => {
                regs[dst.0 as usize] = regs[src.0 as usize];
                pc += 1;
            }
            Op::Jump { target } => {
                pc = program.label_offset(target).unwrap();
            }
            Op::JumpUnless { cond, target } => {
                if regs[cond.0 as usize].boolean() {
                    pc += 1;
                } else {
                    pc = program.label_offset(target).unwrap();
                }
            }
            Op::Return { value } => {
                return value.map_or(Val::Unit, |r| regs[r.0 as usize]);
            }
        }
    }
}

fn constant(value: Const) -> Val {
    match value {
        Const::Int(v) => Val::Int(v),
        Const::Float(bits) => Val::Float(f64::from_bits(bits)),
        Const::Bool(v) => Val::Bool(v),
    }
}

fn binary(op: BinOp, lhs: Val, rhs: Val) -> Val {
    match op {
        BinOp::Add | BinOp::Sub | BinOp::Mul | BinOp::Div => arithmetic(op, lhs, rhs),
        BinOp::Eq => Val::Bool(lhs == rhs),
        BinOp::Ne => Val::Bool(lhs != rhs),
        BinOp::Lt | BinOp::Le | BinOp::Gt | BinOp::Ge => ordering(op, lhs, rhs),
        BinOp::And => Val::Bool(lhs.boolean() && rhs.boolean()),
        BinOp::Or => Val::Bool(lhs.boolean() || rhs.boolean()),
    }
}

fn arithmetic(op: BinOp, lhs: Val, rhs: Val) -> Val {
    match (lhs, rhs) {
        (Val::Int(a), Val::Int(b)) => Val::Int(match op {
            BinOp::Add => a.wrapping_add(b),
            BinOp::Sub => a.wrapping_sub(b),
            BinOp::Mul => a.wrapping_mul(b),
            BinOp::Div => a.wrapping_div(b),
            _ => unreachable!(),
        }),
        (Val::Float(a), Val::Float(b)) => Val::Float(match op {
            BinOp::Add => a + b,
            BinOp::Sub => a - b,
            BinOp::Mul => a * b,
            BinOp::Div => a / b,
            _ => unreachable!(),
        }),
        other => panic!("arithmetic on mismatched operands: {other:?}"),
    }
}

fn ordering(op: BinOp, lhs: Val, rhs: Val) -> Val {
    let result = match (lhs, rhs) {
        (Val::Int(a), Val::Int(b)) => compare(op, a, b),
        (Val::Float(a), Val::Float(b)) => compare(op, a, b),
        other => panic!("comparison on mismatched operands: {other:?}"),
    };
    Val::Bool(result)
}

fn compare<T: PartialOrd>(op: BinOp, a: T, b: T) -> bool {
    match op {
        BinOp::Lt => a < b,
        BinOp::Le => a <= b,
        BinOp::Gt => a > b,
        BinOp::Ge => a >= b,
        _ => unreachable!(),
    }
}

fn unary(op: UnOp, operand: Val) -> Val {
    match op {
        UnOp::Neg => match operand {
            Val::Int(v) => Val::Int(v.wrapping_neg()),
            Val::Float(v) => Val::Float(-v),
            other => panic!("negation of a non-numeric value: {other:?}"),
        },
        UnOp::Not => Val::Bool(!operand.boolean()),
    }
}

/// A node of a straight-line integer data-flow graph: a constant, or a binary
/// operation over two earlier nodes.
#[derive(Clone, Debug)]
enum Node {
    Const(i64),
    Bin(BinOp, usize, usize),
}

/// A small deterministic pseudo-random generator (a 64-bit linear congruential one).
struct Lcg(u64);

impl Lcg {
    fn next(&mut self) -> u64 {
        self.0 = self
            .0
            .wrapping_mul(6364136223846793005)
            .wrapping_add(1442695040888963407);
        self.0 >> 11
    }
}

/// A graph of 1 to 23 nodes: node 0 is a constant; every operand names an
/// earlier node; operations are wrapping add, sub and mul.
fn graph(rng: &mut Lcg) -> Vec<Node> {
    let len = 1 + (rng.next() % 23) as usize;
    let mut nodes = Vec::with_capacity(len);
    for index in 0..len {
        let is_bin = rng.next() % 2 == 0;
        let value = rng.next() as i64 ^ (rng.next() << 20) as i64;
        if !is_bin || index == 0 {
            nodes.push(Node::Const(value));
        } else {
            let op = [BinOp::Add, BinOp::Sub, BinOp::Mul][(value.unsigned_abs() % 3) as usize];
            let a = (rng.next() as usize) % index;
            let b = (rng.next() as usize) % index;
            nodes.push(Node::Bin(op, a, b));
        }
    }
    nodes
}

fn evaluate(nodes: &[Node]) -> i64 {
    let mut values: Vec<i64> = Vec::with_capacity(nodes.len());
    for node in nodes {
        let value = match *node {
            Node::Const(c) => c,
            Node::Bin(op, a, b) => apply(op, values[a], values[b]),
        };
        values.push(value);
    }
    *values.last().expect("a graph has at least one node")
}

fn apply(op: BinOp, a: i64, b: i64) -> i64 {
    match op {
        BinOp::Add => a.wrapping_add(b),
        BinOp::Sub => a.wrapping_sub(b),
        BinOp::Mul => a.wrapping_mul(b),
        _ => unreachable!("the generator only emits add, sub, and mul"),
    }
}

fn build(nodes: &[Node]) -> ir_lang::Function {
    let mut b = Builder::new("p", &[], Type::Int);
    let mut values = Vec::with_capacity(nodes.len());
    for node in nodes {
        let value = match *node {
            Node::Const(c) => b.iconst(c),
            Node::Bin(op, a, c) => b.bin(op, values[a], values[c]),
        };
        values.push(value);
    }
    b.ret(Some(*values.last().expect("a graph has at least one node")));
    b.finish()
}

fn assert_structurally_sound(program: &Program) {
    let registers = program.register_count();
    let op_count = program.len();
    let check_reg = |r: Reg| assert!(r.0 < registers, "register {} out of range", r.0);
    let check_label = |program: &Program, target| {
        let offset = program
            .label_offset(target)
            .expect("every jump target must resolve");
        assert!(offset < op_count, "a label points past the ops");
    };

    for &op in program.ops() {
        match op {
            Op::Const { dst, .. } => check_reg(dst),
            Op::Bin { dst, lhs, rhs, .. } => {
                check_reg(dst);
                check_reg(lhs);
                check_reg(rhs);
            }
            Op::Un { dst, src, .. } => {
                check_reg(dst);
                check_reg(src);
            }
            Op::Move { dst, src } => {
                check_reg(dst);
                check_reg(src);
            }
            Op::Jump { target } => check_label(program, target),
            Op::JumpUnless { cond, target } => {
                check_reg(cond);
                check_label(program, target);
            }
            Op::Return { value } => {
                if let Some(r) = value {
                    check_reg(r);
                }
            }
        }
    }
}

const CASES: u64 = 256;

#[test]
fn compiled_program_matches_a_direct_evaluation() {
    let mut rng = Lcg(0x5eed);
    for _ in 0..CASES {
        let nodes = graph(&mut rng);
        let program = compile(&build(&nodes)).expect("a straight-line graph is valid");
        assert_eq!(run(&program, &[]), Val::Int(evaluate(&nodes)));
    }
}

#[test]
fn compiled_program_is_structurally_sound() {
    let mut rng = Lcg(0xc0de);
    for _ in 0..CASES {
        let nodes = graph(&mut rng);
        let program = compile(&build(&nodes)).expect("a straight-line graph is valid");
        assert_structurally_sound(&program);
    }
}

#[test]
fn register_count_equals_the_number_of_values() {
    let mut rng = Lcg(0xbeef);
    for _ in 0..CASES {
        let nodes = graph(&mut rng);
        let program = compile(&build(&nodes)).expect("a straight-line graph is valid");
        assert_eq!(program.register_count() as usize, nodes.len());
    }
}
