//! End-to-end workflow: build a function with the IR builder, lower it, inspect
//! the program, and run it through a reference interpreter.

use codegen_lang::{compile, BinOp, Const, Op, Program, UnOp};
use ir_lang::{Builder, Type};

/// A runtime value flowing through the registers as a program runs.
#[derive(Clone, Copy, PartialEq, Debug)]
enum Val {
    Int(i64),
    Float(f64),
    Bool(bool),
    Unit,
}

impl Val {
    fn boolean(self) -> bool {
        match self {
            Val::Bool(v) => v,
            other => panic!("expected a bool, found {other:?}"),
        }
    }
}

/// Runs `program` with `args` bound to its parameter registers and returns the
/// value it returns: the reference interpreter the lowered code is checked with.
/// Integer arithmetic wraps so that a run is always defined.
fn run(program: &Program, args: &[Val]) -> Val {
    let mut regs = vec![Val::Unit; program.register_count() as usize];
    for (slot, &arg) in program.params().iter().zip(args) {
        regs[slot.0 as usize] = arg;
    }
    let ops = program.ops();
    let mut pc = program.label_offset(program.entry()).unwrap();
    loop {
        match ops[pc] {
            Op::Const { dst, value } => {
                regs[dst.0 as usize] = constant(value);
                pc += 1;
            }
            Op::Bin { op, dst, lhs, rhs } => {
                regs[dst.0 as usize] = binary(op, regs[lhs.0 as usize], regs[rhs.0 as usize]);
                pc += 1;
            }
            Op::Un { op, dst, src } => {
                regs[dst.0 as usize] = unary(op, regs[src.0 as usize]);
                pc += 1;
            }
            Op::Move { dst, src } => {
                regs[dst.0 as usize] = regs[src.0 as usize];
                pc += 1;
            }
            Op::Jump { target } => {
                pc = program.label_offset(target).unwrap();
            }
            Op::JumpUnless { cond, target } => {
                if regs[cond.0 as usize].boolean() {
                    pc += 1;
                } else {
                    pc = program.label_offset(target).unwrap();
                }
            }
            Op::Return { value } => {
                return value.map_or(Val::Unit, |r| regs[r.0 as usize]);
            }
        }
    }
}

fn constant(value: Const) -> Val {
    match value {
        Const::Int(v) => Val::Int(v),
        Const::Float(bits) => Val::Float(f64::from_bits(bits)),
        Const::Bool(v) => Val::Bool(v),
    }
}

fn binary(op: BinOp, lhs: Val, rhs: Val) -> Val {
    match op {
        BinOp::Add | BinOp::Sub | BinOp::Mul | BinOp::Div => arithmetic(op, lhs, rhs),
        BinOp::Eq => Val::Bool(lhs == rhs),
        BinOp::Ne => Val::Bool(lhs != rhs),
        BinOp::Lt | BinOp::Le | BinOp::Gt | BinOp::Ge => ordering(op, lhs, rhs),
        BinOp::And => Val::Bool(lhs.boolean() && rhs.boolean()),
        BinOp::Or => Val::Bool(lhs.boolean() || rhs.boolean()),
    }
}

fn arithmetic(op: BinOp, lhs: Val, rhs: Val) -> Val {
    match (lhs, rhs) {
        (Val::Int(a), Val::Int(b)) => Val::Int(match op {
            BinOp::Add => a.wrapping_add(b),
            BinOp::Sub => a.wrapping_sub(b),
            BinOp::Mul => a.wrapping_mul(b),
            BinOp::Div => a.wrapping_div(b),
            _ => unreachable!(),
        }),
        (Val::Float(a), Val::Float(b)) => Val::Float(match op {
            BinOp::Add => a + b,
            BinOp::Sub => a - b,
            BinOp::Mul => a * b,
            BinOp::Div => a / b,
            _ => unreachable!(),
        }),
        other => panic!("arithmetic on mismatched operands: {other:?}"),
    }
}

fn ordering(op: BinOp, lhs: Val, rhs: Val) -> Val {
    let result = match (lhs, rhs) {
        (Val::Int(a), Val::Int(b)) => compare(op, a, b),
        (Val::Float(a), Val::Float(b)) => compare(op, a, b),
        other => panic!("comparison on mismatched operands: {other:?}"),
    };
    Val::Bool(result)
}

fn compare<T: PartialOrd>(op: BinOp, a: T, b: T) -> bool {
    match op {
        BinOp::Lt => a < b,
        BinOp::Le => a <= b,
        BinOp::Gt => a > b,
        BinOp::Ge => a >= b,
        _ => unreachable!(),
    }
}

fn unary(op: UnOp, operand: Val) -> Val {
    match op {
        UnOp::Neg => match operand {
            Val::Int(v) => Val::Int(v.wrapping_neg()),
            Val::Float(v) => Val::Float(-v),
            other => panic!("negation of a non-numeric value: {other:?}"),
        },
        UnOp::Not => Val::Bool(!operand.boolean()),
    }
}

#[test]
fn test_double_compiles_and_runs() {
    // fn double(x: int) -> int { x + x }
    let mut b = Builder::new("double", &[Type::Int], Type::Int);
    let x = b.block_params(b.entry())[0];
    let sum = b.bin(BinOp::Add, x, x);
    b.ret(Some(sum));
    let program = compile(&b.finish()).expect("double is well-formed");

    assert_eq!(program.name(), "double");
    assert_eq!(program.register_count(), 2);
    assert!(matches!(
        program.ops().last(),
        Some(Op::Return { value: Some(_) })
    ));

    assert_eq!(run(&program, &[Val::Int(21)]), Val::Int(42));
    assert_eq!(run(&program, &[Val::Int(-5)]), Val::Int(-10));
}

#[test]
fn test_abs_with_a_branch_runs_both_arms() {
    // fn abs(x: int) -> int { if x < 0 { -x } else { x } }
    let mut b = Builder::new("abs", &[Type::Int], Type::Int);
    let x = b.block_params(b.entry())[0];
    let join = b.create_block(&[Type::Int]);
    let neg_blk = b.create_block(&[]);
    let pos_blk = b.create_block(&[]);

    let zero = b.iconst(0);
    let is_neg = b.bin(BinOp::Lt, x, zero);
    b.branch(is_neg, neg_blk, &[], pos_blk, &[]);

    b.switch_to(neg_blk);
    let negated = b.un(UnOp::Neg, x);
    b.jump(join, &[negated]);

    b.switch_to(pos_blk);
    b.jump(join, &[x]);

    b.switch_to(join);
    let result = b.block_params(join)[0];
    b.ret(Some(result));

    let program = compile(&b.finish()).expect("abs is well-formed");

    assert!(
        program
            .ops()
            .iter()
            .any(|op| matches!(op, Op::JumpUnless { .. }))
    );

    assert_eq!(run(&program, &[Val::Int(-7)]), Val::Int(7));
    assert_eq!(run(&program, &[Val::Int(7)]), Val::Int(7));
    assert_eq!(run(&program, &[Val::Int(0)]), Val::Int(0));
}

#[test]
fn test_max_diamond_passes_the_winner_through_a_block_parameter() {
    // fn max(a: int, b: int) -> int { if a < b { b } else { a } }
    let mut f = Builder::new("max", &[Type::Int, Type::Int], Type::Int);
    let a = f.block_params(f.entry())[0];
    let c = f.block_params(f.entry())[1];
    let join = f.create_block(&[Type::Int]);
    let then_blk = f.create_block(&[]);
    let else_blk = f.create_block(&[]);

    let cond = f.bin(BinOp::Lt, a, c);
    f.branch(cond, then_blk, &[], else_blk, &[]);
    f.switch_to(then_blk);
    f.jump(join, &[c]);
    f.switch_to(else_blk);
    f.jump(join, &[a]);
    f.switch_to(join);
    let r = f.block_params(join)[0];
    f.ret(Some(r));

    let program = compile(&f.finish()).expect("max is well-formed");

    assert!(program.ops().iter().any(|op| matches!(op, Op::Move { .. })));

    assert_eq!(
        run(&program, &[Val::Int(3), Val::Int(9)]),
        Val::Int(9)
    );
    assert_eq!(
        run(&program, &[Val::Int(9), Val::Int(3)]),
        Val::Int(9)
    );
    assert_eq!(
        run(&program, &[Val::Int(4), Val::Int(4)]),
        Val::Int(4)
    );
}

#[test]
fn test_loop_edge_swapping_its_parameters_passes_them_at_once() {
    // fn swap_once(x: int, y: int) -> int {
    //     let (mut p, mut q, mut go) = (x, y, true);
    //     while go { (p, q, go) = (q, p, false); }
    //     p - q
    // }
    let mut b = Builder::new("swap_once", &[Type::Int, Type::Int], Type::Int);
    let x = b.block_params(b.entry())[0];
    let y = b.block_params(b.entry())[1];
    let header = b.create_block(&[Type::Int, Type::Int, Type::Bool]);
    let exit = b.create_block(&[Type::Int, Type::Int]);

    let yes = b.bconst(true);
    b.jump(header, &[x, y, yes]);

    b.switch_to(header);
    let p = b.block_params(header)[0];
    let q = b.block_params(header)[1];
    let go = b.block_params(header)[2];
    let no = b.bconst(false);
    b.branch(go, header, &[q, p, no], exit, &[p, q]);

    b.switch_to(exit);
    let r = b.block_params(exit)[0];
    let s = b.block_params(exit)[1];
    let d = b.bin(BinOp::Sub, r, s);
    b.ret(Some(d));

    let program = compile(&b.finish()).expect("swap_once is well-formed");

    // After one swap, p holds y and q holds x.
    assert_eq!(run(&program, &[Val::Int(10), Val::Int(3)]), Val::Int(-7));
    assert_eq!(run(&program, &[Val::Int(2), Val::Int(5)]), Val::Int(3));
}

#[test]
fn test_loop_edge_shifting_its_parameters_keeps_one_register_per_value() {
    // fn shift(x: int) -> int {
    //     let (mut p, mut q, mut go) = (x, 0, true);
    //     while go { (p, q, go) = (100, p, false); }
    //     q - p
    // }
    let mut b = Builder::new("shift", &[Type::Int], Type::Int);
    let x = b.block_params(b.entry())[0];
    let header = b.create_block(&[Type::Int, Type::Int, Type::Bool]);
    let exit = b.create_block(&[Type::Int, Type::Int]);

    let zero = b.iconst(0);
    let yes = b.bconst(true);
    b.jump(header, &[x, zero, yes]);

    b.switch_to(header);
    let p = b.block_params(header)[0];
    let q = b.block_params(header)[1];
    let go = b.block_params(header)[2];
    let k = b.iconst(100);
    let no = b.bconst(false);
    b.branch(go, header, &[k, p, no], exit, &[p, q]);

    b.switch_to(exit);
    let r = b.block_params(exit)[0];
    let s = b.block_params(exit)[1];
    let d = b.bin(BinOp::Sub, s, r);
    b.ret(Some(d));

    let func = b.finish();
    let values = func.value_count();
    let program = compile(&func).expect("shift is well-formed");

    assert_eq!(program.register_count() as usize, values);
    // After one pass, q holds x and p holds 100.
    assert_eq!(run(&program, &[Val::Int(142)]), Val::Int(42));
    assert_eq!(run(&program, &[Val::Int(7)]), Val::Int(-93));
}

#[test]
fn test_countdown_loop_runs_to_completion() {
    // fn sum_to_zero(n: int) -> int { let mut acc = 0; while n > 0 { acc += n; n -= 1; } acc }
    let mut b = Builder::new("sum_to_zero", &[Type::Int], Type::Int);
    let n0 = b.block_params(b.entry())[0];
    let header = b.create_block(&[Type::Int, Type::Int]);
    let body = b.create_block(&[]);
    let exit = b.create_block(&[]);

    let zero = b.iconst(0);
    b.jump(header, &[n0, zero]);

    b.switch_to(header);
    let n = b.block_params(header)[0];
    let acc = b.block_params(header)[1];
    let z = b.iconst(0);
    let more = b.bin(BinOp::Gt, n, z);
    b.branch(more, body, &[], exit, &[]);

    b.switch_to(body);
    let acc2 = b.bin(BinOp::Add, acc, n);
    let one = b.iconst(1);
    let n2 = b.bin(BinOp::Sub, n, one);
    b.jump(header, &[n2, acc2]);

    b.switch_to(exit);
    b.ret(Some(acc));

    let program = compile(&b.finish()).expect("sum_to_zero is well-formed");

    assert_eq!(run(&program, &[Val::Int(5)]), Val::Int(15));
    assert_eq!(run(&program, &[Val::Int(1)]), Val::Int(1));
    assert_eq!(run(&program, &[Val::Int(0)]), Val::Int(0));
    assert_eq!(run(&program, &[Val::Int(-3)]), Val::Int(0));
}

#[test]
fn test_float_and_bool_paths_lower_and_run() {
    // fn cmp(a: float, b: float) -> bool { !(a < b) }
    let mut f = Builder::new("not_less", &[Type::Float, Type::Float], Type::Bool);
    let a = f.block_params(f.entry())[0];
    let c = f.block_params(f.entry())[1];
    let less = f.bin(BinOp::Lt, a, c);
    let not_less = f.un(UnOp::Not, less);
    f.ret(Some(not_less));
    let program = compile(&f.finish()).expect("not_less is well-formed");

    assert_eq!(
        run(&program, &[Val::Float(1.0), Val::Float(2.0)]),
        Val::Bool(false),
    );
    assert_eq!(
        run(&program, &[Val::Float(2.0), Val::Float(1.0)]),
        Val::Bool(true),
    );
}

#[test]
fn test_unit_function_returns_unit() {
    let mut b = Builder::new("noop", &[], Type::Unit);
    b.ret(None);
    let program = compile(&b.finish()).expect("noop is well-formed");
    assert_eq!(run(&program, &[]), Val::Unit);
}

#[test]
fn test_float_constant_runs_exactly() {
    // fn half(x: float) -> float { x * 0.5 }
    let mut b = Builder::new("half", &[Type::Float], Type::Float);
    let x = b.block_params(b.entry())[0];
    let k = b.fconst(0.5);
    let r = b.bin(BinOp::Mul, x, k);
    b.ret(Some(r));
    let program = compile(&b.finish()).expect("half is well-formed");
    assert_eq!(run(&program, &[Val::Float(3.0)]), Val::Float(1.5));
}
