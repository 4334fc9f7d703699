//! Registers, labels, constants, ops and programs, and their disassembly.

use codegen_lang::{compile, BinOp, Const, FloatTexts, Label, Op, Program, Reg};
use ir_lang::{Builder, Type};

#[test]
fn test_reg_and_label_display_use_short_prefixes() {
    assert_eq!(Reg(0).to_string(), "r0");
    assert_eq!(Reg(41).to_string(), "r41");
    assert_eq!(Label(0).to_string(), "L0");
}

#[test]
fn test_const_display_matches_payload() {
    let floats = FloatTexts::new();
    assert_eq!(Const::Int(5).to_string(&floats), "5");
    assert_eq!(Const::Int(-5).to_string(&floats), "-5");
    assert_eq!(Const::Bool(false).to_string(&floats), "false");
}

#[test]
fn test_op_display_renders_each_form() {
    let floats = FloatTexts::new();
    assert_eq!(
        Op::Const {
            dst: Reg(0),
            value: Const::Int(3)
        }
        .to_string(&floats),
        "r0 = const 3"
    );
    assert_eq!(
        Op::Bin {
            op: BinOp::Add,
            dst: Reg(2),
            lhs: Reg(0),
            rhs: Reg(1)
        }
        .to_string(&floats),
        "r2 = add r0, r1"
    );
    assert_eq!(
        Op::Move {
            dst: Reg(1),
            src: Reg(0)
        }
        .to_string(&floats),
        "r1 = r0"
    );
    assert_eq!(Op::Jump { target: Label(1) }.to_string(&floats), "jump L1");
    assert_eq!(
        Op::JumpUnless {
            cond: Reg(0),
            target: Label(2)
        }
        .to_string(&floats),
        "jump_unless r0, L2"
    );
    assert_eq!(Op::Return { value: None }.to_string(&floats), "ret");
}

#[test]
fn test_program_disassembly_prints_header_label_and_ops() {
    let mut b = Builder::new("double", &[Type::Int], Type::Int);
    let x = b.block_params(b.entry())[0];
    let sum = b.bin(BinOp::Add, x, x);
    b.ret(Some(sum));
    let text = compile(&b.finish()).unwrap().to_string(&FloatTexts::new());

    assert!(text.starts_with("double(r0) regs=2"));
    assert!(text.contains("L0:"));
    assert!(text.contains("r1 = add r0, r0"));
    assert!(text.contains("ret r1"));
    assert_eq!(
        text,
        "double(r0) regs=2\nL0:\n    r1 = add r0, r0\n    ret r1\n"
    );
}

#[test]
fn test_entry_label_resolves_to_first_op() {
    let mut b = Builder::new("f", &[], Type::Unit);
    b.ret(None);
    let program = compile(&b.finish()).unwrap();
    assert_eq!(program.entry(), Label(0));
    assert_eq!(program.label_offset(program.entry()), Some(0));
    assert_eq!(program.label_offset(Label(999)), None);
}

#[test]
fn test_reg_and_label_display_of_large_numbers() {
    assert_eq!(Reg(u32::MAX).to_string(), "r4294967295");
    assert_eq!(Label(10).to_string(), "L10");
    assert_eq!(Label(1_000_007).to_string(), "L1000007");
}

#[test]
fn test_const_display_extremes_and_floats() {
    let mut floats = FloatTexts::new();
    assert_eq!(Const::Int(i64::MIN).to_string(&floats), "-9223372036854775808");
    assert_eq!(Const::Int(i64::MAX).to_string(&floats), "9223372036854775807");
    assert_eq!(Const::Int(0).to_string(&floats), "0");
    assert_eq!(Const::Bool(true).to_string(&floats), "true");
    // A float constant without an entry is written as nothing; with one, as given.
    assert_eq!(Const::Float(1.5f64.to_bits()).to_string(&floats), "");
    floats.insert(1.5f64.to_bits(), "1.5".to_string());
    floats.insert(2.0f64.to_bits(), "2".to_string());
    assert_eq!(Const::Float(1.5f64.to_bits()).to_string(&floats), "1.5");
    // A later entry for the same bits replaces an earlier one.
    floats.insert(1.5f64.to_bits(), "one and a half".to_string());
    assert_eq!(floats.text(1.5f64.to_bits()), "one and a half");
    assert_eq!(
        Op::Const {
            dst: Reg(7),
            value: Const::Float(2.0f64.to_bits())
        }
        .to_string(&floats),
        "r7 = const 2"
    );
}

#[test]
fn test_op_display_unary_and_returns() {
    let floats = FloatTexts::new();
    assert_eq!(
        Op::Un {
            op: codegen_lang::UnOp::Not,
            dst: Reg(1),
            src: Reg(0)
        }
        .to_string(&floats),
        "r1 = not r0"
    );
    assert_eq!(
        Op::Return {
            value: Some(Reg(12))
        }
        .to_string(&floats),
        "ret r12"
    );
}

#[test]
fn test_program_getters_and_parts() {
    let ops = vec![
        Op::Const {
            dst: Reg(1),
            value: Const::Int(1),
        },
        Op::Return {
            value: Some(Reg(1)),
        },
    ];
    let p = Program::from_parts("g".to_string(), vec![Reg(0)], 2, ops.clone(), vec![0]);
    assert_eq!(p.name(), "g");
    assert_eq!(p.params(), &[Reg(0)]);
    assert_eq!(p.register_count(), 2);
    assert_eq!(p.ops(), ops.as_slice());
    assert_eq!(p.len(), 2);
    assert!(!p.is_empty());
    assert_eq!(p.label_offsets(), &[0]);
    assert_eq!(p.label_offset(Label(0)), Some(0));
    assert_eq!(p.label_offset(Label(1)), None);
    assert_eq!(
        p.to_string(&FloatTexts::new()),
        "g(r0) regs=2\nL0:\n    r1 = const 1\n    ret r1\n"
    );

    let empty = Program::from_parts(String::new(), vec![], 0, vec![], vec![]);
    assert!(empty.is_empty());
    assert_eq!(empty.len(), 0);
    assert_eq!(empty.to_string(&FloatTexts::new()), "() regs=0\n");
}
