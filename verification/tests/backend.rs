//! The backend trait, the bytecode backend, and the `compile` shortcut.

use codegen_lang::{compile, Backend, Bytecode};
use ir_lang::{Builder, Type};

#[test]
fn test_compile_shortcut_matches_the_backend() {
    let func = {
        let mut b = Builder::new("f", &[Type::Int], Type::Int);
        let x = b.block_params(b.entry())[0];
        b.ret(Some(x));
        b.finish()
    };
    assert_eq!(compile(&func).unwrap(), Bytecode.compile(&func).unwrap());
}

#[test]
fn test_backend_is_zero_sized_and_reusable() {
    assert_eq!(core::mem::size_of::<Bytecode>(), 0);

    let backend = Bytecode;
    let mut first = Builder::new("a", &[], Type::Unit);
    first.ret(None);
    let mut second = Builder::new("b", &[], Type::Unit);
    second.ret(None);

    assert_eq!(backend.compile(&first.finish()).unwrap().name(), "a");
    assert_eq!(backend.compile(&second.finish()).unwrap().name(), "b");
}

#[test]
fn test_default_backend_compiles_through_the_trait() {
    fn through<B: Backend>(backend: &B, func: &ir_lang::Function) -> Option<B::Output> {
        backend.compile(func).ok()
    }
    let backend = Bytecode::default();
    for name in ["a", "b", "c"] {
        let mut b = Builder::new(name, &[], Type::Unit);
        b.ret(None);
        assert_eq!(through(&backend, &b.finish()).unwrap().name(), name);
    }
}

#[test]
fn test_inc_uses_three_registers() {
    // fn inc(x: int) -> int { x + 1 }
    let mut b = Builder::new("inc", &[Type::Int], Type::Int);
    let x = b.block_params(b.entry())[0];
    let one = b.iconst(1);
    let sum = b.bin(ir_lang::BinOp::Add, x, one);
    b.ret(Some(sum));
    let program = Bytecode.compile(&b.finish()).unwrap();
    assert_eq!(program.register_count(), 3);
    assert_eq!(program.params().len(), 1);
    assert_eq!(program.len(), 3);
}
