# codegen_lang

A backend that lowers an `ir_lang` function in SSA form to a flat, register-based
bytecode, written in Verus with its behaviour stated in contracts and proved.

## Layout

- `src/outside.rs` — the `ir_lang` items the library calls, declared with what is
  known of them. These are the trusted items: each contract restates what the
  `ir_lang` source shows.
- `src/ir.rs` — `IrFunction`, the function as lowering reads it (values and blocks
  named by index, a float constant by its bits), and `read_function`, which reads
  one from an `ir_lang::Function`.
- `src/program.rs` — `Reg`, `Label`, `Const`, `Op` and `Program`.
- `src/lower.rs` — `lower`, with `lower_spec`, the exact program a function lowers to.
  A block's arguments are passed as one simultaneous assignment: the copies are
  ordered so that none overwrites a register still to be read, and only a cycle
  among them (a swap) is broken through a scratch register past the values.
- `src/backend.rs` — the `Backend` trait, the `Bytecode` backend and `compile`:
  validate with `Function::validate`, then lower.
- `src/error.rs` — `CodegenError`.
- `src/text.rs` — the disassembly text of registers, labels, ops and programs.
- `src/layout.rs` — where each block's code stands and what each label points at.
- `src/semantics.rs` — what a function and a program compute, and the proof that
  lowering preserves it for a valid function whose entry block is block zero and
  that stays within the bytecode's limits on labels, op offsets and registers.
- `src/laws.rs` — structural laws: the entry label, non-empty output, registers,
  jump targets and labels in range, how control leaves each block's code, how
  labels are numbered, distinct labels and registers, no self-moves, and one
  register per value when no edge's copies form a cycle.
- `app/` — copies of the program types with `serde` derives and `Display`,
  converting to and from the library's types.
- `tests/` — the test suite, with a reference interpreter for the bytecode.

## Floating-point constants

The library holds a float constant by the bits of its `f64` and never computes with
it. Writing one as text is left to the caller, through a `FloatTexts` table; the
`Display` implementations in `app/` fill it with `f64`'s own formatting.
