//! Structural laws of lowering: where execution begins, that a valid function
//! never lowers to an empty program, that every register, jump target and label
//! of the lowered program is in range, how control leaves each block's code, how
//! the labels are numbered, and that no move copies a register onto itself.

use crate::ir::{ir_model, EdgeModel, FnModel, IrInst, TermModel};
use crate::layout::{
    fits, lemma_block_at, lemma_branches_monotone, lemma_labels,
    lemma_start_monotone,
};
use crate::layout::{lemma_temps_bound, registers_fit};
use crate::lower::{
    block_code, block_start, block_temps, branches_before, code_before, copy, edge_moves, edge_ops,
    edge_temps, else_label, else_start, first_free, inst_ops, is_branch, label_of,
    is_free, lemma_first_free_bound, lemma_schedule_temps_grow, live_pairs, lower_spec, pairs, redirect, reg_of, schedule,
    schedule_temps, temp_reg, temps_before, term_ops,
};
use crate::backend::compiled;
use crate::error::CodegenError;
use crate::outside::{ir_block_params, ir_entry};
use crate::program::{Label, Op, Program, ProgramModel, Reg};
use ir_lang::Function;
use vstd::prelude::*;

verus! {

/// A label of the program points at one of its ops.
pub open spec fn resolves(p: ProgramModel, l: Label) -> bool {
    p.label_offset(l) matches Some(o) && o < p.ops.len()
}

/// Every register the op names is one of the program's, and every label it jumps
/// to points at one of its ops.
pub open spec fn op_in_range(p: ProgramModel, op: Op) -> bool {
    match op {
        Op::Const { dst, .. } => dst.0 < p.registers,
        Op::Bin { dst, lhs, rhs, .. } => dst.0 < p.registers && lhs.0 < p.registers && rhs.0
            < p.registers,
        Op::Un { dst, src, .. } => dst.0 < p.registers && src.0 < p.registers,
        Op::Move { dst, src } => dst.0 < p.registers && src.0 < p.registers,
        Op::Jump { target } => resolves(p, target),
        Op::JumpUnless { cond, target } => cond.0 < p.registers && resolves(p, target),
        Op::Return { value } => value matches Some(r) ==> r.0 < p.registers,
    }
}

/// A program is structurally sound: its parameter registers and every register
/// and jump target of its ops are in range.
pub open spec fn structurally_sound(p: ProgramModel) -> bool {
    &&& forall|i: int| 0 <= i < p.params.len() ==> (#[trigger] p.params[i]).0 < p.registers
    &&& forall|x: int| 0 <= x < p.ops.len() ==> op_in_range(p, #[trigger] p.ops[x])
}

/// Execution begins at the first op: the entry label of a program lowered from a
/// function with at least one block points at op zero.
pub proof fn lemma_entry_is_first_op(m: FnModel)
    requires
        fits(m),
        m.blocks.len() >= 1,
    ensures
        lower_spec(m).label_offset(Label(0)) == Some(0int),
{
    lemma_labels(m);
    assert(lower_spec(m).labels[0] == block_start(m, 0) as u32);
}

proof fn lemma_block_code_nonempty(m: FnModel, b: nat)
    requires
        b < m.blocks.len(),
        m.blocks[b as int].terminator is Some,
    ensures
        block_code(m, b).len() >= 1,
{
    let t = m.blocks[b as int].terminator.unwrap();
    assert(term_ops(t, else_label(m, b), m.value_count as nat).len() >= 1);
}

/// A program lowered from a function that `Function::validate` accepts, with at
/// least one block, is never empty: each block ends in a terminator, which lowers
/// to at least one op.
pub proof fn lemma_valid_function_lowers_to_nonempty_program(m: FnModel)
    requires
        m.well_formed(),
        m.blocks.len() >= 1,
    ensures
        lower_spec(m).ops.len() >= 1,
{
    assert(m.blocks[0].well_formed(m.block_count, m.value_count));
    lemma_block_code_nonempty(m, 0);
    lemma_block_at(m, 0);
}

proof fn lemma_inst_ops_in_range(p: ProgramModel, insts: Seq<(usize, Option<IrInst>)>)
    requires
        forall|j: int|
            0 <= j < insts.len() ==> {
                let (v, inst) = #[trigger] insts[j];
                &&& v < p.registers
                &&& inst matches Some(i) && i.operands_below(p.registers as usize)
            },
    ensures
        forall|y: int| 0 <= y < inst_ops(insts).len() ==> op_in_range(p, #[trigger] inst_ops(insts)[y]),
    decreases insts.len(),
{
    if insts.len() > 0 {
        let init = insts.drop_last();
        assert forall|j: int| 0 <= j < init.len() implies {
            let (v, inst) = #[trigger] init[j];
            &&& v < p.registers
            &&& inst matches Some(i) && i.operands_below(p.registers as usize)
        } by {
            assert(init[j] == insts[j]);
        }
        lemma_inst_ops_in_range(p, init);
        let (v, inst) = insts[insts.len() - 1];
        assert(v < p.registers);
        assert forall|y: int| 0 <= y < inst_ops(insts).len() implies op_in_range(
            p,
            #[trigger] inst_ops(insts)[y],
        ) by {
            if y < inst_ops(init).len() {
                assert(inst_ops(insts)[y] == inst_ops(init)[y]);
            }
        }
    }
}

/// Every op of a run is in range for `p`.
spec fn all_in_range(p: ProgramModel, seg: Seq<Op>) -> bool {
    forall|y: int| 0 <= y < seg.len() ==> op_in_range(p, #[trigger] seg[y])
}

proof fn lemma_append_in_range(p: ProgramModel, a: Seq<Op>, b: Seq<Op>)
    requires
        all_in_range(p, a),
        all_in_range(p, b),
    ensures
        all_in_range(p, a + b),
{
    assert forall|y: int| 0 <= y < (a + b).len() implies op_in_range(p, #[trigger] (a + b)[y]) by {
        if y < a.len() {
            assert((a + b)[y] == a[y]);
        } else {
            assert((a + b)[y] == b[y - a.len()]);
        }
    }
}

/// Each copy an edge has to make writes and reads values' registers.
proof fn lemma_live_pairs_in_values(e: EdgeModel, k: nat, vc: nat)
    requires
        k <= pairs(e),
        forall|j: int| 0 <= j < e.args.len() ==> #[trigger] e.args[j] < vc,
        forall|j: int| 0 <= j < e.params.len() ==> #[trigger] e.params[j] < vc,
    ensures
        forall|p: int|
            0 <= p < live_pairs(e, k).len() ==> (#[trigger] live_pairs(e, k)[p]).0.0 < vc && live_pairs(
                e,
                k,
            )[p].1.0 < vc,
    decreases k,
{
    if k > 0 {
        lemma_live_pairs_in_values(e, (k - 1) as nat, vc);
        let prev = live_pairs(e, (k - 1) as nat);
        assert forall|p: int| 0 <= p < prev.len() implies #[trigger] live_pairs(e, k)[p] == prev[p] by {}
    }
}

proof fn lemma_schedule_in_range(p: ProgramModel, q: Seq<(Reg, Reg)>, vc: nat, b: nat)
    requires
        forall|i: int| 0 <= i < q.len() ==> (#[trigger] q[i]).0.0 < vc && q[i].1.0 < vc + b,
        vc + schedule_temps(q, vc, b) <= p.registers,
    ensures
        all_in_range(p, schedule(q, vc, b)),
    decreases q.len(),
{
    if q.len() > 0 {
        lemma_first_free_bound(q, 0);
        lemma_schedule_temps_grow(q, vc, b);
        match first_free(q, 0) {
            Some(i) => {
                let q2 = q.remove(i as int);
                q.remove_ensures(i as int);
                assert forall|j: int| 0 <= j < q2.len() implies (#[trigger] q2[j]).0.0 < vc && q2[j].1.0
                    < vc + b by {
                    if j < i {
                        assert(q2[j] == q[j]);
                    } else {
                        assert(q2[j] == q[j + 1]);
                    }
                }
                lemma_schedule_in_range(p, q2, vc, b);
                lemma_append_in_range(p, copy(q[i as int].0, q[i as int].1), schedule(q2, vc, b));
            },
            None => {
                let d = q[0].0;
                let t = temp_reg(vc, b);
                let r = redirect(q, d, t);
                let q3 = r.remove(0);
                r.remove_ensures(0);
                lemma_schedule_temps_grow(q3, vc, b + 1);
                assert(t.0 == vc + b);
                assert forall|j: int| 0 <= j < q3.len() implies (#[trigger] q3[j]).0.0 < vc && q3[j].1.0
                    < vc + b + 1 by {
                    assert(q3[j] == r[j + 1]);
                }
                lemma_schedule_in_range(p, q3, vc, b + 1);
                lemma_append_in_range(p, copy(t, d), copy(d, r[0].1));
                lemma_append_in_range(p, copy(t, d) + copy(d, r[0].1), schedule(q3, vc, b + 1));
            },
        }
    }
}


/// The label of a block of a function within the limits resolves to an op.
proof fn lemma_block_label_resolves(m: FnModel, t: nat)
    requires
        m.well_formed(),
        fits(m),
        t < m.blocks.len(),
    ensures
        resolves(lower_spec(m), label_of(t as usize)),
{
    lemma_labels(m);
    assert(m.blocks[t as int].well_formed(m.block_count, m.value_count));
    lemma_block_code_nonempty(m, t);
    lemma_block_at(m, t);
    assert(lower_spec(m).labels[t as int] == block_start(m, t) as u32);
}

proof fn lemma_edge_in_range(m: FnModel, e: EdgeModel)
    requires
        m.well_formed(),
        fits(m),
        registers_fit(m),
        e.well_formed(m.block_count, m.value_count),
        edge_temps(e, m.value_count as nat) <= temps_before(m, m.blocks.len()),
    ensures
        forall|y: int|
            0 <= y < edge_ops(e, m.value_count as nat).len() ==> op_in_range(
                lower_spec(m),
                #[trigger] edge_ops(e, m.value_count as nat)[y],
            ),
{
    let p = lower_spec(m);
    let vc = m.value_count as nat;
    let n = pairs(e);
    assert(p.registers == vc + temps_before(m, m.blocks.len()));
    lemma_live_pairs_in_values(e, n, vc);
    lemma_schedule_in_range(p, live_pairs(e, n), vc, 0);
    let mv = edge_moves(e, vc);
    lemma_block_label_resolves(m, e.target as nat);
    assert forall|y: int| 0 <= y < edge_ops(e, vc).len() implies op_in_range(p, #[trigger] edge_ops(e, vc)[y]) by {
        if y < mv.len() {
            assert(edge_ops(e, vc)[y] == mv[y]);
        }
    }
}

proof fn lemma_block_in_range(m: FnModel, b: nat)
    requires
        m.well_formed(),
        fits(m),
        registers_fit(m),
        b < m.blocks.len(),
    ensures
        forall|y: int| 0 <= y < block_code(m, b).len() ==> op_in_range(lower_spec(m), #[trigger] block_code(m, b)[y]),
{
    let p = lower_spec(m);
    let blk = m.blocks[b as int];
    assert(blk.well_formed(m.block_count, m.value_count));
    let insts = inst_ops(blk.insts);
    let t = blk.terminator.unwrap();
    let tops = term_ops(t, else_label(m, b), m.value_count as nat);
    lemma_temps_bound(m, b, m.blocks.len());
    lemma_inst_ops_in_range(p, blk.insts);
    match t {
        TermModel::Return(_) => {},
        TermModel::Jump(e) => {
            lemma_edge_in_range(m, e);
        },
        TermModel::Branch { cond, then_edge, else_edge } => {
            lemma_edge_in_range(m, then_edge);
            lemma_edge_in_range(m, else_edge);
            let thn = edge_ops(then_edge, m.value_count as nat);
            let els = edge_ops(else_edge, m.value_count as nat);
            lemma_labels(m);
            lemma_block_at(m, b);
            lemma_branches_monotone(m, b + 1, m.blocks.len());
            assert(is_branch(blk));
            assert(else_label(m, b).0 as int == m.block_count + branches_before(m, b));
            assert(p.labels[m.block_count + branches_before(m, b)] == else_start(m, b) as u32);
            assert(block_code(m, b).len() == insts.len() + 1 + thn.len() + els.len());
            assert(resolves(p, else_label(m, b)));
            assert forall|y: int| 0 <= y < tops.len() implies op_in_range(p, #[trigger] tops[y]) by {
                if y >= 1 && y < 1 + thn.len() {
                    assert(tops[y] == thn[y - 1]);
                } else if y >= 1 + thn.len() {
                    assert(tops[y] == els[y - 1 - thn.len()]);
                }
            }
        },
    }
    assert forall|y: int| 0 <= y < block_code(m, b).len() implies op_in_range(p, #[trigger] block_code(m, b)[y]) by {
        if y < insts.len() {
            assert(block_code(m, b)[y] == insts[y]);
        } else {
            assert(block_code(m, b)[y] == tops[y - insts.len()]);
        }
    }
}

proof fn lemma_code_in_range(m: FnModel, k: nat)
    requires
        m.well_formed(),
        fits(m),
        registers_fit(m),
        k <= m.blocks.len(),
    ensures
        forall|x: int| 0 <= x < code_before(m, k).len() ==> op_in_range(lower_spec(m), #[trigger] code_before(m, k)[x]),
    decreases k,
{
    if k > 0 {
        let b = (k - 1) as nat;
        lemma_code_in_range(m, b);
        lemma_block_in_range(m, b);
        assert forall|x: int| 0 <= x < code_before(m, k).len() implies op_in_range(
            lower_spec(m),
            #[trigger] code_before(m, k)[x],
        ) by {
            if x < code_before(m, b).len() {
                assert(code_before(m, k)[x] == code_before(m, b)[x]);
            } else {
                assert(code_before(m, k)[x] == block_code(m, b)[x - code_before(m, b).len()]);
            }
        }
    }
}

/// A program lowered from a function that `Function::validate` accepts, within
/// the bytecode's limits on labels, op offsets and registers, is structurally
/// sound: every register it names is below its register count, and every jump
/// resolves to one of its ops.
pub proof fn lemma_valid_function_lowers_to_sound_program(m: FnModel)
    requires
        m.well_formed(),
        fits(m),
        registers_fit(m),
    ensures
        structurally_sound(lower_spec(m)),
{
    lemma_code_in_range(m, m.blocks.len());
}

/// An op that is not a move of a register onto itself.
pub open spec fn not_self_move(op: Op) -> bool {
    op matches Op::Move { dst, src } ==> dst != src
}

proof fn lemma_inst_ops_not_moves(insts: Seq<(usize, Option<IrInst>)>)
    ensures
        forall|y: int| 0 <= y < inst_ops(insts).len() ==> !(#[trigger] inst_ops(insts)[y] is Move),
    decreases insts.len(),
{
    if insts.len() > 0 {
        let init = insts.drop_last();
        lemma_inst_ops_not_moves(init);
        assert forall|y: int| 0 <= y < inst_ops(insts).len() implies !(#[trigger] inst_ops(insts)[y] is Move) by {
            if y < inst_ops(init).len() {
                assert(inst_ops(insts)[y] == inst_ops(init)[y]);
            }
        }
    }
}

/// No op of a run moves a register onto itself.
spec fn none_self(seg: Seq<Op>) -> bool {
    forall|y: int| 0 <= y < seg.len() ==> not_self_move(#[trigger] seg[y])
}

proof fn lemma_append_none_self(a: Seq<Op>, b: Seq<Op>)
    requires
        none_self(a),
        none_self(b),
    ensures
        none_self(a + b),
{
    assert forall|y: int| 0 <= y < (a + b).len() implies not_self_move(#[trigger] (a + b)[y]) by {
        if y < a.len() {
            assert((a + b)[y] == a[y]);
        } else {
            assert((a + b)[y] == b[y - a.len()]);
        }
    }
}

/// Every scheduled op is a move made with `copy`, so none moves a register onto
/// itself.
proof fn lemma_schedule_moves(q: Seq<(Reg, Reg)>, vc: nat, b: nat)
    ensures
        none_self(schedule(q, vc, b)),
        forall|x: int| 0 <= x < schedule(q, vc, b).len() ==> #[trigger] schedule(q, vc, b)[x] is Move,
    decreases q.len(),
{
    if q.len() > 0 {
        lemma_first_free_bound(q, 0);
        let seg = schedule(q, vc, b);
        match first_free(q, 0) {
            Some(i) => {
                let c = copy(q[i as int].0, q[i as int].1);
                let rest = schedule(q.remove(i as int), vc, b);
                lemma_schedule_moves(q.remove(i as int), vc, b);
                lemma_append_none_self(c, rest);
                assert forall|x: int| 0 <= x < seg.len() implies #[trigger] seg[x] is Move by {
                    if x >= c.len() {
                        assert(seg[x] == rest[x - c.len()]);
                    }
                }
            },
            None => {
                let d = q[0].0;
                let t = temp_reg(vc, b);
                let r = redirect(q, d, t);
                let c = copy(t, d) + copy(d, r[0].1);
                let rest = schedule(r.remove(0), vc, b + 1);
                lemma_schedule_moves(r.remove(0), vc, b + 1);
                lemma_append_none_self(copy(t, d), copy(d, r[0].1));
                lemma_append_none_self(c, rest);
                assert forall|x: int| 0 <= x < seg.len() implies #[trigger] seg[x] is Move by {
                    if x >= c.len() {
                        assert(seg[x] == rest[x - c.len()]);
                    } else if x >= copy(t, d).len() {
                        assert(c[x] == copy(d, r[0].1)[x - copy(t, d).len()]);
                    }
                }
            },
        }
    }
}

proof fn lemma_edge_not_self(e: EdgeModel, vc: nat)
    ensures
        forall|y: int| 0 <= y < edge_ops(e, vc).len() ==> not_self_move(#[trigger] edge_ops(e, vc)[y]),
{
    let mv = edge_moves(e, vc);
    lemma_schedule_moves(live_pairs(e, pairs(e)), vc, 0);
    assert forall|y: int| 0 <= y < edge_ops(e, vc).len() implies not_self_move(#[trigger] edge_ops(e, vc)[y]) by {
        if y < mv.len() {
            assert(edge_ops(e, vc)[y] == mv[y]);
        }
    }
}

proof fn lemma_block_not_self(m: FnModel, b: nat)
    requires
        b < m.blocks.len(),
    ensures
        forall|y: int| 0 <= y < block_code(m, b).len() ==> not_self_move(#[trigger] block_code(m, b)[y]),
{
    let blk = m.blocks[b as int];
    let insts = inst_ops(blk.insts);
    lemma_inst_ops_not_moves(blk.insts);
    match blk.terminator {
        None => {
            assert forall|y: int| 0 <= y < block_code(m, b).len() implies not_self_move(
                #[trigger] block_code(m, b)[y],
            ) by {
                assert(block_code(m, b)[y] == insts[y]);
            }
        },
        Some(t) => {
            let vc = m.value_count as nat;
            let tops = term_ops(t, else_label(m, b), vc);
            match t {
                TermModel::Return(_) => {},
                TermModel::Jump(e) => {
                    lemma_edge_not_self(e, vc);
                },
                TermModel::Branch { then_edge, else_edge, .. } => {
                    lemma_edge_not_self(then_edge, vc);
                    lemma_edge_not_self(else_edge, vc);
                    let thn = edge_ops(then_edge, vc);
                    let els = edge_ops(else_edge, vc);
                    assert forall|y: int| 0 <= y < tops.len() implies not_self_move(#[trigger] tops[y]) by {
                        if y >= 1 && y < 1 + thn.len() {
                            assert(tops[y] == thn[y - 1]);
                        } else if y >= 1 + thn.len() {
                            assert(tops[y] == els[y - 1 - thn.len()]);
                        }
                    }
                },
            }
            assert forall|y: int| 0 <= y < block_code(m, b).len() implies not_self_move(
                #[trigger] block_code(m, b)[y],
            ) by {
                if y < insts.len() {
                    assert(block_code(m, b)[y] == insts[y]);
                } else {
                    assert(block_code(m, b)[y] == tops[y - insts.len()]);
                }
            }
        },
    }
}

proof fn lemma_code_not_self(m: FnModel, k: nat)
    requires
        k <= m.blocks.len(),
    ensures
        forall|x: int| 0 <= x < code_before(m, k).len() ==> not_self_move(#[trigger] code_before(m, k)[x]),
    decreases k,
{
    if k > 0 {
        let b = (k - 1) as nat;
        lemma_code_not_self(m, b);
        lemma_block_not_self(m, b);
        assert forall|x: int| 0 <= x < code_before(m, k).len() implies not_self_move(
            #[trigger] code_before(m, k)[x],
        ) by {
            if x < code_before(m, b).len() {
                assert(code_before(m, k)[x] == code_before(m, b)[x]);
            } else {
                assert(code_before(m, k)[x] == block_code(m, b)[x - code_before(m, b).len()]);
            }
        }
    }
}

/// No lowered program copies a register onto itself: an argument already in the
/// register it is passed to needs no move.
pub proof fn lemma_no_self_moves(m: FnModel)
    ensures
        forall|x: int| 0 <= x < lower_spec(m).ops.len() ==> not_self_move(#[trigger] lower_spec(m).ops[x]),
{
    lemma_code_not_self(m, m.blocks.len());
}

/// In a valid function each block's code is at least one op, so block starts
/// strictly increase.
proof fn lemma_start_strict(m: FnModel, b1: nat, b2: nat)
    requires
        m.well_formed(),
        b1 < b2 <= m.blocks.len(),
    ensures
        block_start(m, b1) < block_start(m, b2),
        block_start(m, b1 + 1) == block_start(m, b1) + block_code(m, b1).len(),
{
    assert(m.blocks[b1 as int].well_formed(m.block_count, m.value_count));
    lemma_block_code_nonempty(m, b1);
    lemma_start_monotone(m, b1 + 1, b2);
}

/// The second arm of a branch begins inside its block's code, after the branch's
/// first op.
proof fn lemma_else_inside(m: FnModel, b: nat)
    requires
        m.well_formed(),
        b < m.blocks.len(),
        is_branch(m.blocks[b as int]),
    ensures
        block_start(m, b) < else_start(m, b) < block_start(m, b + 1),
{
    lemma_start_strict(m, b, b + 1);
    let blk = m.blocks[b as int];
    match blk.terminator {
        Some(TermModel::Branch { then_edge, else_edge, .. }) => {
            let vc = m.value_count as nat;
            assert(edge_ops(else_edge, vc).len() >= 1);
            assert(block_code(m, b).len() == inst_ops(blk.insts).len() + 1 + edge_ops(then_edge, vc).len()
                + edge_ops(else_edge, vc).len());
        },
        _ => {},
    }
}

/// Each count below the number of branches among the first `k` blocks is the
/// number of branches before some branch among them.
proof fn lemma_branch_numbered(m: FnModel, k: nat, c: nat) -> (b: nat)
    requires
        c < branches_before(m, k),
    ensures
        b < k,
        is_branch(m.blocks[b as int]),
        branches_before(m, b) == c,
    decreases k,
{
    let p = (k - 1) as nat;
    if c < branches_before(m, p) {
        lemma_branch_numbered(m, p, c)
    } else {
        p
    }
}

/// In a program lowered from a valid function within the bytecode's limits, no
/// two labels point at the same op: block labels point at the distinct starts of
/// non-empty blocks, and each arm label inside its branch's block, past its first
/// op.
pub proof fn lemma_labels_are_distinct(m: FnModel)
    requires
        m.well_formed(),
        fits(m),
    ensures
        forall|i: int, j: int|
            0 <= i < j < lower_spec(m).labels.len() ==> #[trigger] lower_spec(m).labels[i]
                != #[trigger] lower_spec(m).labels[j],
{
    let p = lower_spec(m);
    let n = m.blocks.len();
    lemma_labels(m);
    lemma_block_at(m, (n - 1) as nat);
    assert forall|i: int, j: int| 0 <= i < j < p.labels.len() implies #[trigger] p.labels[i]
        != #[trigger] p.labels[j] by {
        let total = block_start(m, n);
        assert(total <= u32::MAX);
        if j < n {
            lemma_start_strict(m, i as nat, j as nat);
            lemma_start_monotone(m, j as nat, n);
            assert(p.labels[i] == block_start(m, i as nat) as u32);
            assert(p.labels[j] == block_start(m, j as nat) as u32);
        } else {
            let bj = lemma_branch_numbered(m, n, (j - n) as nat);
            lemma_else_inside(m, bj);
            lemma_start_monotone(m, bj + 1, n);
            assert(p.labels[j] == else_start(m, bj) as u32);
            let vj = else_start(m, bj);
            assert(vj < total);
            if i < n {
                assert(p.labels[i] == block_start(m, i as nat) as u32);
                lemma_start_monotone(m, i as nat, n);
                let vi = block_start(m, i as nat);
                if i as nat <= bj {
                    if (i as nat) < bj {
                        lemma_start_monotone(m, i as nat, bj);
                    }
                    assert(vi < vj);
                } else {
                    lemma_start_monotone(m, bj + 1, i as nat);
                    assert(vi > vj);
                }
                assert(vi <= total);
            } else {
                let bi = lemma_branch_numbered(m, n, (i - n) as nat);
                lemma_else_inside(m, bi);
                lemma_start_monotone(m, bi + 1, n);
                assert(p.labels[i] == else_start(m, bi) as u32);
                let vi = else_start(m, bi);
                assert(bi != bj);
                if bi < bj {
                    lemma_start_monotone(m, bi + 1, bj);
                    assert(vi < vj);
                } else {
                    lemma_start_monotone(m, bj + 1, bi);
                    assert(vi > vj);
                }
            }
        }
    }
}

/// Every label of a program lowered from a valid function within the bytecode's
/// limits points at one of its ops, whether or not a jump names it.
pub proof fn lemma_every_label_resolves(m: FnModel)
    requires
        m.well_formed(),
        fits(m),
    ensures
        forall|i: int|
            0 <= i < lower_spec(m).labels.len() ==> #[trigger] resolves(lower_spec(m), Label(i as u32)),
{
    let p = lower_spec(m);
    let n = m.blocks.len();
    lemma_labels(m);
    lemma_branches_monotone(m, 0, n);
    assert forall|i: int| 0 <= i < p.labels.len() implies #[trigger] resolves(p, Label(i as u32)) by {
        let total = block_start(m, n);
        if n > 0 {
            lemma_block_at(m, (n - 1) as nat);
        }
        assert(total == p.ops.len());
        assert(total <= u32::MAX);
        assert((i as u32) as int == i);
        if i < n {
            lemma_start_strict(m, i as nat, (i + 1) as nat);
            lemma_start_monotone(m, (i + 1) as nat, n);
            assert(p.labels[i] == block_start(m, i as nat) as u32);
        } else {
            let bj = lemma_branch_numbered(m, n, (i - n) as nat);
            lemma_else_inside(m, bj);
            lemma_start_monotone(m, bj + 1, n);
            assert(p.labels[i] == else_start(m, bj) as u32);
        }
    }
}

/// An op that takes control out of a block's code: a return or a jump.
pub open spec fn leaves_block(op: Op) -> bool {
    op is Return || op is Jump
}

/// Every move of a run is followed, in the run, by another move or by a jump.
pub open spec fn moves_lead_to_jump(seg: Seq<Op>) -> bool {
    forall|x: int|
        0 <= x < seg.len() && #[trigger] seg[x] is Move ==> x + 1 < seg.len() && (seg[x + 1] is Move
            || seg[x + 1] is Jump)
}

proof fn lemma_append_lead(a: Seq<Op>, b: Seq<Op>)
    requires
        moves_lead_to_jump(a),
        moves_lead_to_jump(b),
    ensures
        moves_lead_to_jump(a + b),
{
    assert forall|x: int| 0 <= x < (a + b).len() && #[trigger] (a + b)[x] is Move implies x + 1 < (a
        + b).len() && ((a + b)[x + 1] is Move || (a + b)[x + 1] is Jump) by {
        if x < a.len() {
            assert((a + b)[x] == a[x]);
            assert((a + b)[x + 1] == a[x + 1]);
        } else {
            assert((a + b)[x] == b[x - a.len()]);
            assert((a + b)[x + 1] == b[x + 1 - a.len()]);
        }
    }
}

/// All moves, save the last op, a jump.
proof fn lemma_edge_leads(e: EdgeModel, vc: nat)
    ensures
        moves_lead_to_jump(edge_ops(e, vc)),
        edge_ops(e, vc).last() is Jump,
{
    lemma_moves_only(e, vc);
    let mv = edge_moves(e, vc);
    let ops = edge_ops(e, vc);
    assert forall|x: int| 0 <= x < ops.len() && #[trigger] ops[x] is Move implies x + 1 < ops.len() && (
    ops[x + 1] is Move || ops[x + 1] is Jump) by {
        assert(x < mv.len());
        if x + 1 < mv.len() {
            assert(ops[x + 1] == mv[x + 1]);
        }
    }
}

/// Every op of the moves of an edge is a move.
proof fn lemma_moves_only(e: EdgeModel, vc: nat)
    ensures
        forall|x: int| 0 <= x < edge_moves(e, vc).len() ==> #[trigger] edge_moves(e, vc)[x] is Move,
{
    lemma_schedule_moves(live_pairs(e, pairs(e)), vc, 0);
}

/// The code of a block with a terminator ends in an op that leaves the block,
/// and every move in it is followed by a move or a jump.
proof fn lemma_block_leads(m: FnModel, b: nat)
    requires
        b < m.blocks.len(),
    ensures
        moves_lead_to_jump(block_code(m, b)),
        m.blocks[b as int].terminator is Some ==> block_code(m, b).len() >= 1 && leaves_block(
            block_code(m, b).last(),
        ),
{
    let blk = m.blocks[b as int];
    let vc = m.value_count as nat;
    let insts = inst_ops(blk.insts);
    lemma_inst_ops_not_moves(blk.insts);
    assert(moves_lead_to_jump(insts));
    match blk.terminator {
        None => {
            assert(block_code(m, b) =~= insts);
        },
        Some(t) => {
            let tops = term_ops(t, else_label(m, b), vc);
            match t {
                TermModel::Return(_) => {},
                TermModel::Jump(e) => {
                    lemma_edge_leads(e, vc);
                },
                TermModel::Branch { then_edge, else_edge, .. } => {
                    lemma_edge_leads(then_edge, vc);
                    lemma_edge_leads(else_edge, vc);
                    let head = seq![tops[0]];
                    assert(tops == head + edge_ops(then_edge, vc) + edge_ops(else_edge, vc));
                    lemma_append_lead(head, edge_ops(then_edge, vc));
                    lemma_append_lead(head + edge_ops(then_edge, vc), edge_ops(else_edge, vc));
                },
            }
            assert(moves_lead_to_jump(tops));
            lemma_append_lead(insts, tops);
            assert(block_code(m, b) == insts + tops);
            assert(block_code(m, b).last() == tops.last());
        },
    }
}

proof fn lemma_code_leads(m: FnModel, k: nat)
    requires
        k <= m.blocks.len(),
    ensures
        moves_lead_to_jump(code_before(m, k)),
    decreases k,
{
    if k > 0 {
        let b = (k - 1) as nat;
        lemma_code_leads(m, b);
        lemma_block_leads(m, b);
        lemma_append_lead(code_before(m, b), block_code(m, b));
    }
}

/// In a program lowered from a function that `Function::validate` accepts, the
/// code of each block ends in a `Return` or a `Jump`, so control never falls from
/// one block's code into the next one's or past the end of the program: the last
/// op of a program with at least one block is one of the two. Every `Move` is
/// followed by another `Move` or by a `Jump`.
pub proof fn lemma_control_leaves_each_block(m: FnModel)
    requires
        m.well_formed(),
    ensures
        forall|b: nat|
            #![trigger block_code(m, b)]
            b < m.blocks.len() ==> {
                &&& block_code(m, b).len() >= 1
                &&& block_start(m, b + 1) == block_start(m, b) + block_code(m, b).len()
                &&& leaves_block(lower_spec(m).ops[block_start(m, b) + block_code(m, b).len() - 1])
            },
        m.blocks.len() >= 1 ==> leaves_block(lower_spec(m).ops.last()),
        moves_lead_to_jump(lower_spec(m).ops),
{
    let p = lower_spec(m);
    let n = m.blocks.len();
    lemma_code_leads(m, n);
    assert forall|b: nat|
        #![trigger block_code(m, b)]
        b < n implies {
            &&& block_code(m, b).len() >= 1
            &&& block_start(m, b + 1) == block_start(m, b) + block_code(m, b).len()
            &&& leaves_block(p.ops[block_start(m, b) + block_code(m, b).len() - 1])
        } by {
        assert(m.blocks[b as int].well_formed(m.block_count, m.value_count));
        lemma_block_leads(m, b);
        lemma_block_at(m, b);
        let last = block_code(m, b).len() - 1;
        assert(p.ops[block_start(m, b) + last] == block_code(m, b)[last]);
    }
    if n >= 1 {
        let b = (n - 1) as nat;
        assert(block_code(m, b).len() >= 1);
        assert(code_before(m, n) == code_before(m, b) + block_code(m, b));
        assert(p.ops.last() == block_code(m, b).last());
        assert(m.blocks[b as int].well_formed(m.block_count, m.value_count));
        lemma_block_leads(m, b);
    }
}

/// The labels of a program lowered from a valid function within the bytecode's
/// limits: one per block, numbered by the block's index and pointing at where its
/// code begins, then one per two-way branch, past the block labels.
pub proof fn lemma_label_numbering(m: FnModel)
    requires
        m.well_formed(),
        fits(m),
    ensures
        lower_spec(m).labels.len() == m.block_count + branches_before(m, m.blocks.len()),
        forall|b: nat|
            b < m.blocks.len() ==> #[trigger] lower_spec(m).label_offset(label_of(b as usize)) == Some(
                block_start(m, b) as int,
            ),
{
    let p = lower_spec(m);
    let n = m.blocks.len();
    lemma_labels(m);
    lemma_branches_monotone(m, 0, n);
    if n > 0 {
        lemma_block_at(m, (n - 1) as nat);
    }
    let total = block_start(m, n);
    assert(total == p.ops.len());
    assert forall|b: nat|
        b < n implies #[trigger] p.label_offset(label_of(b as usize)) == Some(block_start(m, b) as int) by {
        lemma_start_monotone(m, b, n);
        assert(p.labels[b as int] == block_start(m, b) as u32);
    }
}

/// The arm label of a two-way branch of a program lowered from a valid function
/// within the bytecode's limits is numbered by the block count plus the number of
/// branches laid out before it; the `JumpUnless` that opens the branch, right
/// after the block's instructions, tests the branch's condition and names that
/// label, which points at where the branch's second arm begins.
pub proof fn lemma_branch_arm_label(m: FnModel, b: nat)
    requires
        m.well_formed(),
        fits(m),
        b < m.blocks.len(),
        is_branch(m.blocks[b as int]),
    ensures
        else_label(m, b).0 == m.block_count + branches_before(m, b),
        lower_spec(m).ops[(block_start(m, b) + inst_ops(m.blocks[b as int].insts).len()) as int]
            == (Op::JumpUnless {
            cond: reg_of(m.blocks[b as int].terminator.unwrap()->cond),
            target: else_label(m, b),
        }),
        lower_spec(m).label_offset(else_label(m, b)) == Some(else_start(m, b) as int),
{
    let p = lower_spec(m);
    let n = m.blocks.len();
    lemma_labels(m);
    lemma_branches_monotone(m, 0, n);
    lemma_block_at(m, (n - 1) as nat);
    let blk = m.blocks[b as int];
    let vc = m.value_count as nat;
    let arm = else_label(m, b);
    let l = inst_ops(blk.insts).len();
    lemma_block_at(m, b);
    lemma_else_inside(m, b);
    lemma_start_monotone(m, b + 1, n);
    lemma_branches_monotone(m, b + 1, n);
    lemma_branches_monotone(m, 0, b);
    let tops = term_ops(blk.terminator.unwrap(), arm, vc);
    assert(block_code(m, b) == inst_ops(blk.insts) + tops);
    assert(block_code(m, b)[l as int] == tops[0]);
    assert(p.ops[(block_start(m, b) + l) as int] == block_code(m, b)[l as int]);
    assert(p.labels[m.block_count + branches_before(m, b)] == else_start(m, b) as u32);
}

/// Each value has its own register: two values numbered within a `u32` share a
/// register exactly when they are the same value.
pub proof fn lemma_values_have_distinct_registers(v: usize, w: usize)
    requires
        v <= u32::MAX,
        w <= u32::MAX,
    ensures
        reg_of(v) == reg_of(w) <==> v == w,
{
}


/// Whether `rank` orders the pending copies so that none overwrites a register
/// that a copy still to be made reads: a copy that reads another copy's
/// destination is ranked below it. Copies admit such an order exactly when they
/// hold no cycle.
pub open spec fn ranked(p: Seq<(Reg, Reg)>, rank: spec_fn(Reg) -> nat) -> bool {
    forall|i: int, j: int|
        #![trigger p[i], p[j]]
        0 <= i < p.len() && 0 <= j < p.len() && p[j].1 == p[i].0 ==> rank(p[j].0) < rank(p[i].0)
}

proof fn lemma_min_rank(p: Seq<(Reg, Reg)>, rank: spec_fn(Reg) -> nat, k: nat) -> (m: int)
    requires
        0 < k <= p.len(),
    ensures
        0 <= m < k,
        forall|j: int| 0 <= j < k ==> rank(p[m].0) <= rank(#[trigger] p[j].0),
    decreases k,
{
    if k == 1 {
        0
    } else {
        let m = lemma_min_rank(p, rank, (k - 1) as nat);
        if rank(p[k - 1].0) < rank(p[m].0) {
            k - 1
        } else {
            m
        }
    }
}

proof fn lemma_free_found(p: Seq<(Reg, Reg)>, i: nat, k: nat)
    requires
        k <= i < p.len(),
        is_free(p, i as int),
    ensures
        first_free(p, k) is Some,
    decreases p.len() - k,
{
    if k < i && !is_free(p, k as int) {
        lemma_free_found(p, i, k + 1);
    }
}

proof fn lemma_ranked_schedule(p: Seq<(Reg, Reg)>, rank: spec_fn(Reg) -> nat, vc: nat, b: nat)
    requires
        ranked(p, rank),
    ensures
        schedule_temps(p, vc, b) == b,
        schedule(p, vc, b).len() == p.len(),
    decreases p.len(),
{
    if p.len() > 0 {
        let m = lemma_min_rank(p, rank, p.len());
        assert forall|j: int| 0 <= j < p.len() implies #[trigger] p[j].1 != p[m].0 by {
            if p[j].1 == p[m].0 {
                assert(rank(p[j].0) < rank(p[m].0));
            }
        }
        lemma_free_found(p, m as nat, 0);
        lemma_first_free_bound(p, 0);
        let i = first_free(p, 0).unwrap() as int;
        assert(p[i].1 != p[i].0);
        let p2 = p.remove(i);
        p.remove_ensures(i);
        assert forall|x: int, y: int|
            #![trigger p2[x], p2[y]]
            0 <= x < p2.len() && 0 <= y < p2.len() && p2[y].1 == p2[x].0 implies rank(p2[y].0) < rank(
            p2[x].0,
        ) by {
            let xx = if x < i {
                x
            } else {
                x + 1
            };
            let yy = if y < i {
                y
            } else {
                y + 1
            };
            assert(p2[x] == p[xx]);
            assert(p2[y] == p[yy]);
        }
        lemma_ranked_schedule(p2, rank, vc, b);
    }
}

/// An edge whose copies hold no cycle, as `rank` witnesses, uses no scratch
/// register and makes one move per copy it has to make.
pub proof fn lemma_edge_without_cycle(e: EdgeModel, vc: nat, rank: spec_fn(Reg) -> nat)
    requires
        ranked(live_pairs(e, pairs(e)), rank),
    ensures
        edge_temps(e, vc) == 0,
        edge_moves(e, vc).len() == live_pairs(e, pairs(e)).len(),
{
    lemma_ranked_schedule(live_pairs(e, pairs(e)), rank, vc, 0);
}

proof fn lemma_temps_zero(m: FnModel, k: nat)
    requires
        k <= m.blocks.len(),
        forall|b: int| 0 <= b < m.blocks.len() ==> block_temps(#[trigger] m.blocks[b], m.value_count as nat) == 0,
    ensures
        temps_before(m, k) == 0,
    decreases k,
{
    if k > 0 {
        lemma_temps_zero(m, (k - 1) as nat);
        assert(block_temps(m.blocks[k - 1], m.value_count as nat) == 0);
    }
}

/// One register per value: a function none of whose blocks uses a scratch
/// register, as when no edge's copies hold a cycle, lowers to a program with
/// exactly as many registers as values.
pub proof fn lemma_one_register_per_value(m: FnModel)
    requires
        m.value_count <= u32::MAX,
        forall|b: int| 0 <= b < m.blocks.len() ==> block_temps(#[trigger] m.blocks[b], m.value_count as nat) == 0,
    ensures
        lower_spec(m).registers == m.value_count,
{
    lemma_temps_zero(m, m.blocks.len());
}


/// The program's parameters are the registers of the entry block's parameters,
/// one for each, in declaration order: parameter `i` is held in the register
/// numbered by the index of the entry block's `i`-th parameter value.
pub proof fn lemma_params_in_declaration_order(m: FnModel)
    ensures
        lower_spec(m).params.len() == m.entry_params.len(),
        forall|i: int|
            0 <= i < m.entry_params.len() ==> #[trigger] lower_spec(m).params[i] == Reg(
                m.entry_params[i] as u32,
            ),
{
}

/// What `compile` returns for a function it accepts holds, as its `i`-th
/// parameter register, the register of the `i`-th parameter value of the
/// function's entry block.
pub proof fn lemma_compiled_params_in_declaration_order(func: Function, p: Program)
    requires
        compiled(func, Ok::<Program, CodegenError>(p)),
    ensures
        p@.params.len() == ir_block_params(func, ir_entry(func)).len(),
        forall|i: int|
            0 <= i < p@.params.len() ==> #[trigger] p@.params[i] == Reg(
                ir_block_params(func, ir_entry(func))[i] as u32,
            ),
{
    lemma_params_in_declaration_order(ir_model(func));
}


/// The program keeps the function's name.
pub proof fn lemma_program_keeps_name(m: FnModel)
    ensures
        lower_spec(m).name == m.name,
{
}

} // verus!
