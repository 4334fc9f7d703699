//! Lowering: one op per value, argument moves on edges, two-arm branches.

use codegen_lang::{
    compile, lower, read_function, BinOp, Const, IrBlock, IrEdge, IrFunction, IrInst,
    IrTerminator, Label, Op, Reg, UnOp,
};
use ir_lang::{Builder, Type};

#[test]
fn test_straight_line_lowers_to_one_op_per_value() {
    // fn f(x: int) -> int { -(x * x) }
    let mut b = Builder::new("f", &[Type::Int], Type::Int);
    let x = b.block_params(b.entry())[0];
    let sq = b.bin(BinOp::Mul, x, x);
    let neg = b.un(UnOp::Neg, sq);
    b.ret(Some(neg));
    let program = compile(&b.finish()).unwrap();

    assert_eq!(
        program.ops(),
        [
            Op::Bin {
                op: BinOp::Mul,
                dst: Reg(1),
                lhs: Reg(0),
                rhs: Reg(0)
            },
            Op::Un {
                op: UnOp::Neg,
                dst: Reg(2),
                src: Reg(1)
            },
            Op::Return {
                value: Some(Reg(2))
            },
        ]
    );
}

#[test]
fn test_jump_moves_arguments_into_target_parameters() {
    // entry passes a constant to a one-parameter exit block.
    let mut b = Builder::new("f", &[], Type::Int);
    let exit = b.create_block(&[Type::Int]);
    let n = b.iconst(7);
    b.jump(exit, &[n]);
    b.switch_to(exit);
    let p = b.block_params(exit)[0];
    b.ret(Some(p));

    let arg = Reg(n.index() as u32);
    let param = Reg(p.index() as u32);
    let program = compile(&b.finish()).unwrap();

    assert!(program.ops().contains(&Op::Move {
        dst: param,
        src: arg
    }));
    assert!(program.ops().contains(&Op::Jump { target: Label(1) }));
}

#[test]
fn test_branch_emits_two_exclusive_arms() {
    // fn f(c: bool) -> unit { if c {} else {} }
    let mut b = Builder::new("f", &[Type::Bool], Type::Unit);
    let c = b.block_params(b.entry())[0];
    let yes = b.create_block(&[]);
    let no = b.create_block(&[]);
    b.branch(c, yes, &[], no, &[]);
    b.switch_to(yes);
    b.ret(None);
    b.switch_to(no);
    b.ret(None);
    let program = compile(&b.finish()).unwrap();

    assert!(matches!(
        program.ops()[0],
        Op::JumpUnless { cond: Reg(0), .. }
    ));
    assert!(program.ops().contains(&Op::Jump { target: Label(1) }));
    assert!(program.ops().contains(&Op::Jump { target: Label(2) }));
}

#[test]
fn test_self_move_is_not_emitted() {
    let mut b = Builder::new("f", &[Type::Int], Type::Int);
    let x = b.block_params(b.entry())[0];
    b.ret(Some(x));
    let program = compile(&b.finish()).unwrap();
    assert!(!program.ops().iter().any(|op| matches!(op, Op::Move { .. })));
}

#[test]
fn test_constants_lower_to_their_payloads() {
    let mut b = Builder::new("k", &[], Type::Int);
    let _ = b.fconst(1.5);
    let _ = b.bconst(true);
    let n = b.iconst(42);
    b.ret(Some(n));
    let program = compile(&b.finish()).unwrap();

    assert!(program.ops().contains(&Op::Const {
        dst: Reg(2),
        value: Const::Int(42)
    }));
    assert!(program.ops().contains(&Op::Const {
        dst: Reg(1),
        value: Const::Bool(true)
    }));
    assert!(program.ops().contains(&Op::Const {
        dst: Reg(0),
        value: Const::Float(1.5f64.to_bits())
    }));
}

/// `fn f(c: bool) -> int { if c { 1 } else { 2 } }` written directly in the
/// plain form: block 0 branches, blocks 1 and 2 jump to block 3 passing their
/// constant into its parameter, block 3 returns it.
fn diamond() -> IrFunction {
    let edge = |from_value: usize| IrEdge {
        target: 3,
        args: vec![from_value],
        params: vec![1],
    };
    IrFunction {
        name: "f".to_string(),
        entry: 0,
        entry_params: vec![0],
        value_count: 4,
        block_count: 4,
        blocks: vec![
            IrBlock {
                insts: vec![],
                terminator: Some(IrTerminator::Branch {
                    cond: 0,
                    then_edge: IrEdge {
                        target: 1,
                        args: vec![],
                        params: vec![],
                    },
                    else_edge: IrEdge {
                        target: 2,
                        args: vec![],
                        params: vec![],
                    },
                }),
            },
            IrBlock {
                insts: vec![(2, Some(IrInst::Iconst(1)))],
                terminator: Some(IrTerminator::Jump(edge(2))),
            },
            IrBlock {
                insts: vec![(3, Some(IrInst::Iconst(2)))],
                terminator: Some(IrTerminator::Jump(edge(3))),
            },
            IrBlock {
                insts: vec![],
                terminator: Some(IrTerminator::Return(Some(1))),
            },
        ],
    }
}

#[test]
fn test_lower_lays_out_a_diamond_exactly() {
    let p = lower(&diamond());
    assert_eq!(p.name(), "f");
    assert_eq!(p.params(), &[Reg(0)]);
    assert_eq!(p.register_count(), 4);
    assert_eq!(
        p.ops(),
        [
            // block 0: skip to the else arm (label 4) unless r0, then each arm.
            Op::JumpUnless {
                cond: Reg(0),
                target: Label(4)
            },
            Op::Jump { target: Label(1) },
            Op::Jump { target: Label(2) },
            // block 1
            Op::Const {
                dst: Reg(2),
                value: Const::Int(1)
            },
            Op::Move {
                dst: Reg(1),
                src: Reg(2)
            },
            Op::Jump { target: Label(3) },
            // block 2
            Op::Const {
                dst: Reg(3),
                value: Const::Int(2)
            },
            Op::Move {
                dst: Reg(1),
                src: Reg(3)
            },
            Op::Jump { target: Label(3) },
            // block 3
            Op::Return {
                value: Some(Reg(1))
            },
        ]
    );
    // Blocks start at 0, 3, 6 and 9; the else arm of block 0 opens at op 2.
    assert_eq!(p.label_offsets(), &[0, 3, 6, 9, 2]);
}

#[test]
fn test_lower_skips_missing_instructions_and_terminators() {
    let ir = IrFunction {
        name: "odd".to_string(),
        entry: 0,
        entry_params: vec![],
        value_count: 3,
        block_count: 3,
        blocks: vec![
            IrBlock {
                insts: vec![(0, None), (1, Some(IrInst::Bconst(false)))],
                terminator: None,
            },
            IrBlock {
                insts: vec![],
                terminator: Some(IrTerminator::Return(None)),
            },
        ],
    };
    let p = lower(&ir);
    assert_eq!(
        p.ops(),
        [
            Op::Const {
                dst: Reg(1),
                value: Const::Bool(false)
            },
            Op::Return { value: None },
        ]
    );
    // The third block is counted but never laid out, so its label stays at zero.
    assert_eq!(p.label_offsets(), &[0, 1, 0]);
}

#[test]
fn test_read_function_reads_every_part() {
    let mut b = Builder::new("abs", &[Type::Int], Type::Int);
    let x = b.block_params(b.entry())[0];
    let join = b.create_block(&[Type::Int]);
    let neg_blk = b.create_block(&[]);
    let pos_blk = b.create_block(&[]);
    let zero = b.iconst(0);
    let is_neg = b.bin(BinOp::Lt, x, zero);
    b.branch(is_neg, neg_blk, &[], pos_blk, &[]);
    b.switch_to(neg_blk);
    let negated = b.un(UnOp::Neg, x);
    b.jump(join, &[negated]);
    b.switch_to(pos_blk);
    b.jump(join, &[x]);
    b.switch_to(join);
    let result = b.block_params(join)[0];
    b.ret(Some(result));
    let func = b.finish();

    let ir = read_function(&func);
    assert_eq!(ir.name, "abs");
    assert_eq!(ir.entry, 0);
    assert_eq!(ir.entry_params, vec![0]);
    assert_eq!(ir.value_count, 5);
    assert_eq!(ir.block_count, 4);
    assert_eq!(ir.blocks.len(), 4);
    assert_eq!(
        ir.blocks[0].insts,
        vec![
            (2, Some(IrInst::Iconst(0))),
            (3, Some(IrInst::Bin(BinOp::Lt, 0, 2)))
        ]
    );
    match &ir.blocks[0].terminator {
        Some(IrTerminator::Branch {
            cond,
            then_edge,
            else_edge,
        }) => {
            assert_eq!(*cond, 3);
            assert_eq!(then_edge.target, 2);
            assert_eq!(else_edge.target, 3);
        }
        other => panic!("expected a branch, got {other:?}"),
    }
    match &ir.blocks[2].terminator {
        Some(IrTerminator::Jump(edge)) => {
            assert_eq!(edge.target, 1);
            assert_eq!(edge.args, vec![4]);
            assert_eq!(edge.params, vec![1]);
        }
        other => panic!("expected a jump, got {other:?}"),
    }
    assert_eq!(
        ir.blocks[2].insts,
        vec![(4, Some(IrInst::Un(UnOp::Neg, 0)))]
    );
    assert!(matches!(
        ir.blocks[1].terminator,
        Some(IrTerminator::Return(Some(1)))
    ));
    // Lowering what was read is what compiling the function gives.
    assert_eq!(lower(&ir), compile(&func).unwrap());
}

#[test]
fn test_float_constant_is_read_by_its_bits() {
    let mut b = Builder::new("k", &[], Type::Float);
    let v = b.fconst(-0.25);
    b.ret(Some(v));
    let ir = read_function(&b.finish());
    assert_eq!(
        ir.blocks[0].insts,
        vec![(0, Some(IrInst::Fconst((-0.25f64).to_bits())))]
    );
}

/// A loop whose back edge passes the loop's own parameters in swapped order:
/// block 0 enters block 1 with `(x, y, true)`; block 1, with parameters
/// `(p, q, go)`, loops back with `(q, p, false)` while `go` holds, and otherwise
/// passes `(p, q)` to block 2, which returns their difference.
fn swap_loop() -> IrFunction {
    IrFunction {
        name: "swap".to_string(),
        entry: 0,
        entry_params: vec![0, 1],
        value_count: 10,
        block_count: 3,
        blocks: vec![
            IrBlock {
                insts: vec![(9, Some(IrInst::Bconst(true)))],
                terminator: Some(IrTerminator::Jump(IrEdge {
                    target: 1,
                    args: vec![0, 1, 9],
                    params: vec![2, 3, 4],
                })),
            },
            IrBlock {
                insts: vec![(5, Some(IrInst::Bconst(false)))],
                terminator: Some(IrTerminator::Branch {
                    cond: 4,
                    then_edge: IrEdge {
                        target: 1,
                        args: vec![3, 2, 5],
                        params: vec![2, 3, 4],
                    },
                    else_edge: IrEdge {
                        target: 2,
                        args: vec![2, 3],
                        params: vec![6, 7],
                    },
                }),
            },
            IrBlock {
                insts: vec![(8, Some(IrInst::Bin(BinOp::Sub, 6, 7)))],
                terminator: Some(IrTerminator::Return(Some(8))),
            },
        ],
    }
}

#[test]
fn test_lower_swaps_loop_parameters_through_a_scratch_register() {
    let p = lower(&swap_loop());
    // Ten values, and one scratch register for the swap's cycle.
    assert_eq!(p.register_count(), 11);
    assert_eq!(
        p.ops(),
        [
            // block 0: no argument is overwritten, so the copies go straight in.
            Op::Const {
                dst: Reg(9),
                value: Const::Bool(true)
            },
            Op::Move {
                dst: Reg(2),
                src: Reg(0)
            },
            Op::Move {
                dst: Reg(3),
                src: Reg(1)
            },
            Op::Move {
                dst: Reg(4),
                src: Reg(9)
            },
            Op::Jump { target: Label(1) },
            // block 1
            Op::Const {
                dst: Reg(5),
                value: Const::Bool(false)
            },
            Op::JumpUnless {
                cond: Reg(4),
                target: Label(3)
            },
            // The back edge: the copy into `go` reads nothing another copy writes,
            // so it goes first; `p` and `q` swap, a cycle, broken through r10.
            Op::Move {
                dst: Reg(4),
                src: Reg(5)
            },
            Op::Move {
                dst: Reg(10),
                src: Reg(2)
            },
            Op::Move {
                dst: Reg(2),
                src: Reg(3)
            },
            Op::Move {
                dst: Reg(3),
                src: Reg(10)
            },
            Op::Jump { target: Label(1) },
            // The exit edge.
            Op::Move {
                dst: Reg(6),
                src: Reg(2)
            },
            Op::Move {
                dst: Reg(7),
                src: Reg(3)
            },
            Op::Jump { target: Label(2) },
            // block 2
            Op::Bin {
                op: BinOp::Sub,
                dst: Reg(8),
                lhs: Reg(6),
                rhs: Reg(7)
            },
            Op::Return {
                value: Some(Reg(8))
            },
        ]
    );
    assert_eq!(p.label_offsets(), &[0, 5, 15, 12]);
}

#[test]
fn test_every_label_points_inside_and_moves_lead_to_jumps() {
    for p in [lower(&swap_loop()), lower(&diamond())] {
        let ops = p.ops();
        for &offset in p.label_offsets() {
            assert!((offset as usize) < ops.len());
        }
        assert!(matches!(ops.last(), Some(Op::Return { .. } | Op::Jump { .. })));
        for (i, op) in ops.iter().enumerate() {
            if matches!(op, Op::Move { .. }) {
                assert!(matches!(ops[i + 1], Op::Move { .. } | Op::Jump { .. }));
            }
        }
    }
}

/// A loop that re-enters its header, with parameters `(p, q)`, passing `(k, p)`:
/// `q` must read `p` before `p` is overwritten, which ordering the copies
/// achieves without a scratch register.
fn shift_loop() -> IrFunction {
    IrFunction {
        name: "shift".to_string(),
        entry: 0,
        entry_params: vec![0],
        value_count: 5,
        block_count: 2,
        blocks: vec![
            IrBlock {
                insts: vec![(3, Some(IrInst::Iconst(7)))],
                terminator: Some(IrTerminator::Jump(IrEdge {
                    target: 1,
                    args: vec![0, 3],
                    params: vec![1, 2],
                })),
            },
            IrBlock {
                insts: vec![(4, Some(IrInst::Iconst(1)))],
                terminator: Some(IrTerminator::Jump(IrEdge {
                    target: 1,
                    args: vec![4, 1],
                    params: vec![1, 2],
                })),
            },
        ],
    }
}

#[test]
fn test_lower_orders_copies_so_no_argument_is_overwritten() {
    let p = lower(&shift_loop());
    // One register per value: no edge's copies form a cycle.
    assert_eq!(p.register_count(), 5);
    assert_eq!(
        p.ops(),
        [
            Op::Const {
                dst: Reg(3),
                value: Const::Int(7)
            },
            Op::Move {
                dst: Reg(1),
                src: Reg(0)
            },
            Op::Move {
                dst: Reg(2),
                src: Reg(3)
            },
            Op::Jump { target: Label(1) },
            Op::Const {
                dst: Reg(4),
                value: Const::Int(1)
            },
            // `q` reads `p` before `p` receives `k`.
            Op::Move {
                dst: Reg(2),
                src: Reg(1)
            },
            Op::Move {
                dst: Reg(1),
                src: Reg(4)
            },
            Op::Jump { target: Label(1) },
        ]
    );
    assert_eq!(p.label_offsets(), &[0, 4]);
}
