//! What a function and its lowered program compute, and the law that lowering
//! preserves it.
//!
//! Both are given meaning over register files: a value of the IR lives in the
//! register numbered by its index, so an IR environment is a register file too.
//! The program also uses scratch registers past the values to pass a block's
//! arguments, so its register file need only agree with the function's
//! environment on the values' registers. The meaning of constants and operations
//! is left open, an [`Interp`]: the law holds for every interpretation of them.

use crate::backend::compiled;
use crate::error::CodegenError;
use crate::ir::{ir_model, EdgeModel, FnModel, IrInst, TermModel};
use crate::layout::{
    fits, lemma_block_at, lemma_branches_monotone, lemma_labels, lemma_start_monotone,
    lemma_temps_bound, registers_fit,
};
use crate::lower::{
    block_code, block_start, branches_before, copy, dst_of, edge_moves, edge_ops, edge_temps,
    else_label, else_start, first_free, inst_op, inst_ops, is_branch, label_of,
    lemma_first_free_bound, lemma_schedule_temps_grow, live, live_pairs, lower_spec, pairs, redirect, reg_of, schedule,
    schedule_temps, temp_reg, term_ops,
};
use crate::program::{Const, Op, Program, ProgramModel, Reg};
use ir_lang::{BinOp, Function, UnOp};
use vstd::prelude::*;

verus! {

/// An interpretation of constants and operations over values of type `V`, and of
/// which values a conditional branch counts as true.
#[verifier::reject_recursive_types(V)]
pub struct Interp<V> {
    pub konst: spec_fn(Const) -> V,
    pub bin: spec_fn(BinOp, V, V) -> V,
    pub un: spec_fn(UnOp, V) -> V,
    pub truthy: spec_fn(V) -> bool,
}

/// The register file `regs` with register `r` set to `v`.
pub open spec fn set_reg<V>(regs: spec_fn(u32) -> V, r: u32, v: V) -> spec_fn(u32) -> V {
    |x: u32|
        if x == r {
            v
        } else {
            regs(x)
        }
}

/// The value an instruction computes in environment `env`.
pub open spec fn eval_inst<V>(s: Interp<V>, env: spec_fn(u32) -> V, inst: IrInst) -> V {
    match inst {
        IrInst::Iconst(c) => (s.konst)(Const::Int(c)),
        IrInst::Fconst(bits) => (s.konst)(Const::Float(bits)),
        IrInst::Bconst(c) => (s.konst)(Const::Bool(c)),
        IrInst::Bin(op, l, r) => (s.bin)(op, env(l as u32), env(r as u32)),
        IrInst::Un(op, x) => (s.un)(op, env(x as u32)),
    }
}

/// The environment after a run of instructions, each defining its value.
pub open spec fn run_insts<V>(
    s: Interp<V>,
    env: spec_fn(u32) -> V,
    insts: Seq<(usize, Option<IrInst>)>,
) -> spec_fn(u32) -> V
    decreases insts.len(),
{
    if insts.len() == 0 {
        env
    } else {
        let before = run_insts(s, env, insts.drop_last());
        match insts.last().1 {
            Some(i) => set_reg(before, insts.last().0 as u32, eval_inst(s, before, i)),
            None => before,
        }
    }
}

/// The environment after the first `n` parameters receive their arguments, all
/// arguments read in `from`: the simultaneous assignment of block arguments.
pub open spec fn pass_args<V>(
    from: spec_fn(u32) -> V,
    args: Seq<usize>,
    params: Seq<usize>,
    n: nat,
) -> spec_fn(u32) -> V
    decreases n,
{
    if n == 0 {
        from
    } else {
        set_reg(pass_args(from, args, params, (n - 1) as nat), params[n - 1] as u32, from(args[n - 1] as u32))
    }
}

/// The environment on entering an edge's target.
pub open spec fn take_edge<V>(env: spec_fn(u32) -> V, e: EdgeModel) -> spec_fn(u32) -> V {
    pass_args(env, e.args, e.params, pairs(e))
}

/// What executing one block leads to.
#[verifier::reject_recursive_types(V)]
pub enum Outcome<V> {
    /// The function returns, with a value or without.
    Returned(Option<V>),
    /// Control enters the block with this index, with this environment.
    Enter(nat, spec_fn(u32) -> V),
    /// The block has no terminator.
    Stuck,
}

/// Executes block `b` in environment `env`: its instructions, then its terminator.
pub open spec fn block_step<V>(m: FnModel, s: Interp<V>, env: spec_fn(u32) -> V, b: nat) -> Outcome<V> {
    let blk = m.blocks[b as int];
    let after = run_insts(s, env, blk.insts);
    match blk.terminator {
        None => Outcome::Stuck,
        Some(TermModel::Return(v)) => Outcome::Returned(
            match v {
                Some(x) => Some(after(x as u32)),
                None => None,
            },
        ),
        Some(TermModel::Jump(e)) => Outcome::Enter(e.target as nat, take_edge(after, e)),
        Some(TermModel::Branch { cond, then_edge, else_edge }) => if (s.truthy)(after(cond as u32)) {
            Outcome::Enter(then_edge.target as nat, take_edge(after, then_edge))
        } else {
            Outcome::Enter(else_edge.target as nat, take_edge(after, else_edge))
        },
    }
}

/// Runs the function from block `b` for at most `fuel` blocks: `Some` of what it
/// returns if it returns in time.
pub open spec fn run_function<V>(
    m: FnModel,
    s: Interp<V>,
    env: spec_fn(u32) -> V,
    b: nat,
    fuel: nat,
) -> Option<Option<V>>
    decreases fuel,
{
    if fuel == 0 || b >= m.blocks.len() {
        None
    } else {
        match block_step(m, s, env, b) {
            Outcome::Returned(r) => Some(r),
            Outcome::Enter(t, next) => run_function(m, s, next, t, (fuel - 1) as nat),
            Outcome::Stuck => None,
        }
    }
}

/// Runs the program from op `pc` for at most `fuel` ops: `Some` of what it
/// returns if it returns in time.
pub open spec fn run_program<V>(
    p: ProgramModel,
    s: Interp<V>,
    regs: spec_fn(u32) -> V,
    pc: nat,
    fuel: nat,
) -> Option<Option<V>>
    decreases fuel,
{
    if fuel == 0 || pc >= p.ops.len() {
        None
    } else {
        let f = (fuel - 1) as nat;
        match p.ops[pc as int] {
            Op::Const { dst, value } => run_program(p, s, set_reg(regs, dst.0, (s.konst)(value)), pc + 1, f),
            Op::Bin { op, dst, lhs, rhs } => run_program(
                p,
                s,
                set_reg(regs, dst.0, (s.bin)(op, regs(lhs.0), regs(rhs.0))),
                pc + 1,
                f,
            ),
            Op::Un { op, dst, src } => run_program(p, s, set_reg(regs, dst.0, (s.un)(op, regs(src.0))), pc + 1, f),
            Op::Move { dst, src } => run_program(p, s, set_reg(regs, dst.0, regs(src.0)), pc + 1, f),
            Op::Jump { target } => match p.label_offset(target) {
                Some(o) => run_program(p, s, regs, o as nat, f),
                None => None,
            },
            Op::JumpUnless { cond, target } => if (s.truthy)(regs(cond.0)) {
                run_program(p, s, regs, pc + 1, f)
            } else {
                match p.label_offset(target) {
                    Some(o) => run_program(p, s, regs, o as nat, f),
                    None => None,
                }
            },
            Op::Return { value } => Some(
                match value {
                    Some(r) => Some(regs(r.0)),
                    None => None,
                },
            ),
        }
    }
}

/// Whether an op only computes into a register and falls through.
pub open spec fn is_straight(op: Op) -> bool {
    ||| op is Const
    ||| op is Bin
    ||| op is Un
    ||| op is Move
}

/// The register file after a straight-line op.
pub open spec fn op_effect<V>(s: Interp<V>, regs: spec_fn(u32) -> V, op: Op) -> spec_fn(u32) -> V {
    match op {
        Op::Const { dst, value } => set_reg(regs, dst.0, (s.konst)(value)),
        Op::Bin { op, dst, lhs, rhs } => set_reg(regs, dst.0, (s.bin)(op, regs(lhs.0), regs(rhs.0))),
        Op::Un { op, dst, src } => set_reg(regs, dst.0, (s.un)(op, regs(src.0))),
        Op::Move { dst, src } => set_reg(regs, dst.0, regs(src.0)),
        _ => regs,
    }
}

/// The register file after a run of straight-line ops.
pub open spec fn effect<V>(s: Interp<V>, regs: spec_fn(u32) -> V, seg: Seq<Op>) -> spec_fn(u32) -> V
    decreases seg.len(),
{
    if seg.len() == 0 {
        regs
    } else {
        op_effect(s, effect(s, regs, seg.drop_last()), seg.last())
    }
}

/// Whether a register file agrees with an environment on the registers of the
/// first `vc` values.
pub open spec fn agree<V>(regs: spec_fn(u32) -> V, env: spec_fn(u32) -> V, vc: nat) -> bool {
    forall|x: u32| (x as nat) < vc ==> #[trigger] regs(x) == env(x)
}

/// Running a run of straight-line ops consumes one unit of fuel each and applies
/// their effect.
proof fn lemma_straight_run<V>(
    p: ProgramModel,
    s: Interp<V>,
    pc: nat,
    seg: Seq<Op>,
    regs: spec_fn(u32) -> V,
    f: nat,
)
    requires
        pc + seg.len() <= p.ops.len(),
        forall|x: int| 0 <= x < seg.len() ==> p.ops[pc + x] == #[trigger] seg[x],
        forall|x: int| 0 <= x < seg.len() ==> is_straight(#[trigger] seg[x]),
    ensures
        f >= seg.len() ==> run_program(p, s, regs, pc, f) == run_program(
            p,
            s,
            effect(s, regs, seg),
            pc + seg.len(),
            (f - seg.len()) as nat,
        ),
        f < seg.len() ==> run_program(p, s, regs, pc, f) is None,
    decreases seg.len(),
{
    if seg.len() > 0 {
        let init = seg.drop_last();
        assert forall|x: int| 0 <= x < init.len() implies p.ops[pc + x] == #[trigger] init[x] by {
            assert(seg[x] == init[x]);
        }
        assert forall|x: int| 0 <= x < init.len() implies is_straight(#[trigger] init[x]) by {
            assert(seg[x] == init[x]);
        }
        lemma_straight_run(p, s, pc, init, regs, f);
        let last = seg.last();
        assert(p.ops[(pc + init.len()) as int] == last);
        assert(is_straight(last));
        if f >= seg.len() {
            let rest = (f - init.len()) as nat;
            let mid = effect(s, regs, init);
            assert(run_program(p, s, mid, pc + init.len(), rest) == run_program(
                p,
                s,
                op_effect(s, mid, last),
                pc + seg.len(),
                (f - seg.len()) as nat,
            ));
        } else if f >= init.len() {
            let rest = (f - init.len()) as nat;
            assert(rest == 0);
        }
    }
}

proof fn lemma_effect_push<V>(s: Interp<V>, regs: spec_fn(u32) -> V, seg: Seq<Op>, op: Op)
    ensures
        effect(s, regs, seg.push(op)) == op_effect(s, effect(s, regs, seg), op),
{
    assert(seg.push(op).drop_last() =~= seg);
}

proof fn lemma_effect_append<V>(s: Interp<V>, regs: spec_fn(u32) -> V, a: Seq<Op>, b: Seq<Op>)
    ensures
        effect(s, regs, a + b) == effect(s, effect(s, regs, a), b),
    decreases b.len(),
{
    if b.len() == 0 {
        assert(a + b =~= a);
    } else {
        lemma_effect_append(s, regs, a, b.drop_last());
        assert((a + b).drop_last() =~= a + b.drop_last());
        assert((a + b).last() == b.last());
    }
}

/// Whether every op of a run is a `Move`.
pub open spec fn all_moves(seg: Seq<Op>) -> bool {
    forall|x: int| 0 <= x < seg.len() ==> #[trigger] seg[x] is Move
}

proof fn lemma_all_moves_append(a: Seq<Op>, b: Seq<Op>)
    requires
        all_moves(a),
        all_moves(b),
    ensures
        all_moves(a + b),
{
    assert forall|x: int| 0 <= x < (a + b).len() implies #[trigger] (a + b)[x] is Move by {
        if x < a.len() {
            assert((a + b)[x] == a[x]);
        } else {
            assert((a + b)[x] == b[x - a.len()]);
        }
    }
}

/// A copy sets its destination to what its source holds.
proof fn lemma_copy_effect<V>(s: Interp<V>, regs: spec_fn(u32) -> V, dst: Reg, src: Reg)
    ensures
        effect(s, regs, copy(dst, src)) == set_reg(regs, dst.0, regs(src.0)),
        all_moves(copy(dst, src)),
{
    let c = copy(dst, src);
    if dst != src {
        assert(c.drop_last() =~= Seq::<Op>::empty());
        assert(effect(s, regs, c.drop_last()) == regs);
        assert(c.last() == Op::Move { dst, src });
        assert(effect(s, regs, c) == op_effect(s, regs, Op::Move { dst, src }));
    } else {
        assert(c.len() == 0);
        assert(effect(s, regs, c) == regs);
        assert(set_reg(regs, dst.0, regs(src.0)) =~= regs);
    }
}

/// The ops of a run of instructions are straight-line, and from a register file
/// that agrees with an environment on the values they compute what the
/// instructions compute.
proof fn lemma_inst_effect<V>(
    s: Interp<V>,
    r: spec_fn(u32) -> V,
    env: spec_fn(u32) -> V,
    insts: Seq<(usize, Option<IrInst>)>,
    vc: nat,
)
    requires
        vc <= u32::MAX,
        agree(r, env, vc),
        forall|j: int|
            0 <= j < insts.len() ==> {
                let (v, inst) = #[trigger] insts[j];
                &&& v < vc
                &&& inst matches Some(i) && i.operands_below(vc as usize)
            },
    ensures
        agree(effect(s, r, inst_ops(insts)), run_insts(s, env, insts), vc),
        forall|x: int| 0 <= x < inst_ops(insts).len() ==> is_straight(#[trigger] inst_ops(insts)[x]),
    decreases insts.len(),
{
    if insts.len() > 0 {
        let init = insts.drop_last();
        assert forall|j: int| 0 <= j < init.len() implies {
            let (v, inst) = #[trigger] init[j];
            &&& v < vc
            &&& inst matches Some(i) && i.operands_below(vc as usize)
        } by {
            assert(init[j] == insts[j]);
        }
        lemma_inst_effect(s, r, env, init, vc);
        let last = insts[insts.len() - 1];
        let v = last.0;
        let i = last.1.unwrap();
        lemma_effect_push(s, r, inst_ops(init), inst_op(v, i));
        let br = effect(s, r, inst_ops(init));
        let be = run_insts(s, env, init);
        assert(op_effect(s, br, inst_op(v, i)) =~= set_reg(br, v as u32, eval_inst(s, br, i)));
        assert(eval_inst(s, br, i) == eval_inst(s, be, i)) by {
            match i {
                IrInst::Bin(_, l, rr) => {
                    assert(br(l as u32) == be(l as u32));
                    assert(br(rr as u32) == be(rr as u32));
                },
                IrInst::Un(_, x) => {
                    assert(br(x as u32) == be(x as u32));
                },
                _ => {},
            }
        }
        assert forall|x: int| 0 <= x < inst_ops(insts).len() implies is_straight(
            #[trigger] inst_ops(insts)[x],
        ) by {
            if x < inst_ops(init).len() {
                assert(inst_ops(insts)[x] == inst_ops(init)[x]);
            }
        }
    }
}

/// Passing the first `n` arguments leaves a register alone if every parameter
/// held in it either already holds its argument or is passed again later.
proof fn lemma_pass_args_keeps<V>(
    from: spec_fn(u32) -> V,
    args: Seq<usize>,
    params: Seq<usize>,
    n: nat,
    x: u32,
)
    requires
        n <= params.len(),
        n <= args.len(),
        forall|j: int|
            0 <= j < n && #[trigger] (params[j] as u32) == x ==> (args[j] as u32) == x || exists|k: int|
                j < k < n && #[trigger] (params[k] as u32) == x,
    ensures
        pass_args(from, args, params, n)(x) == from(x),
    decreases n,
{
    if n > 0 {
        let i = n - 1;
        if (params[i] as u32) != x {
            assert forall|j: int|
                0 <= j < i && #[trigger] (params[j] as u32) == x implies (args[j] as u32) == x || exists|
                k: int,
            | j < k < i && #[trigger] (params[k] as u32) == x by {
                if (args[j] as u32) != x {
                    let k = choose|k: int| j < k < n && #[trigger] (params[k] as u32) == x;
                    assert(k < i);
                }
            }
            lemma_pass_args_keeps(from, args, params, (n - 1) as nat, x);
        } else {
            assert(!(exists|k: int| i < k < n && #[trigger] (params[k] as u32) == x));
        }
    }
}

/// The last parameter of the first `n` held in a register receives its argument.
proof fn lemma_pass_args_last<V>(
    from: spec_fn(u32) -> V,
    args: Seq<usize>,
    params: Seq<usize>,
    n: nat,
    i: int,
)
    requires
        0 <= i < n,
        n <= params.len(),
        n <= args.len(),
        forall|j: int| i < j < n ==> #[trigger] (params[j] as u32) != (params[i] as u32),
    ensures
        pass_args(from, args, params, n)(params[i] as u32) == from(args[i] as u32),
    decreases n,
{
    if i < n - 1 {
        lemma_pass_args_last(from, args, params, (n - 1) as nat, i);
    }
}

/// Each copy an edge has to make writes a value's register with the argument that
/// passing all arguments at once leaves there, read from a value's register.
proof fn lemma_live_pairs_agree<V>(env: spec_fn(u32) -> V, e: EdgeModel, k: nat, vc: nat)
    requires
        k <= pairs(e),
        forall|j: int| 0 <= j < e.args.len() ==> #[trigger] e.args[j] < vc,
        forall|j: int| 0 <= j < e.params.len() ==> #[trigger] e.params[j] < vc,
    ensures
        forall|p: int|
            0 <= p < live_pairs(e, k).len() ==> {
                &&& (#[trigger] live_pairs(e, k)[p]).0.0 < vc
                &&& live_pairs(e, k)[p].1.0 < vc
                &&& env(live_pairs(e, k)[p].1.0) == pass_args(env, e.args, e.params, pairs(e))(
                    live_pairs(e, k)[p].0.0,
                )
            },
    decreases k,
{
    if k > 0 {
        let i = k - 1;
        lemma_live_pairs_agree(env, e, (k - 1) as nat, vc);
        if live(e, i) {
            assert forall|j: int| i < j < pairs(e) implies #[trigger] (e.params[j] as u32) != (
            e.params[i] as u32) by {
                assert(dst_of(e, j) != dst_of(e, i));
            }
            lemma_pass_args_last(env, e.args, e.params, pairs(e), i);
        }
        let prev = live_pairs(e, (k - 1) as nat);
        assert forall|p: int| 0 <= p < prev.len() implies #[trigger] live_pairs(e, k)[p] == prev[p] by {}
    }
}

/// Every copy an edge has to make is among its copies.
proof fn lemma_live_pairs_cover(e: EdgeModel, k: nat, i: int)
    requires
        0 <= i < k <= pairs(e),
        live(e, i),
    ensures
        exists|p: int| 0 <= p < live_pairs(e, k).len() && (#[trigger] live_pairs(e, k)[p]).0 == dst_of(e, i),
    decreases k,
{
    if i < k - 1 {
        lemma_live_pairs_cover(e, (k - 1) as nat, i);
        let prev = live_pairs(e, (k - 1) as nat);
        let p = choose|p: int| 0 <= p < prev.len() && (#[trigger] prev[p]).0 == dst_of(e, i);
        assert(live_pairs(e, k)[p] == prev[p]);
    } else {
        let p = live_pairs(e, (k - 1) as nat).len() as int;
        assert(live_pairs(e, k)[p].0 == dst_of(e, i));
    }
}

/// Passing an edge's arguments is under way: no pending copy writes anything but a
/// value's register; each reads a register below the next scratch register that
/// holds what its destination is to end with; and every value's register that no
/// pending copy writes already holds what it is to end with.
pub open spec fn passing<V>(
    p: Seq<(Reg, Reg)>,
    regs: spec_fn(u32) -> V,
    goal: spec_fn(u32) -> V,
    vc: nat,
    b: nat,
) -> bool {
    &&& forall|i: int| 0 <= i < p.len() ==> (#[trigger] p[i]).0.0 < vc
    &&& forall|i: int| 0 <= i < p.len() ==> (#[trigger] p[i]).1.0 < vc + b
    &&& forall|i: int| 0 <= i < p.len() ==> regs((#[trigger] p[i]).1.0) == goal(p[i].0.0)
    &&& forall|x: u32|
        (x as nat) < vc && (forall|i: int| 0 <= i < p.len() ==> (#[trigger] p[i]).0.0 != x) ==> #[trigger] regs(x)
            == goal(x)
}


/// The scheduled moves finish passing the arguments: run from a register file
/// where passing is under way, they leave every value's register holding what it
/// is to end with.
proof fn lemma_schedule<V>(
    s: Interp<V>,
    p: Seq<(Reg, Reg)>,
    regs: spec_fn(u32) -> V,
    goal: spec_fn(u32) -> V,
    vc: nat,
    b: nat,
)
    requires
        passing(p, regs, goal, vc, b),
        vc + schedule_temps(p, vc, b) <= u32::MAX,
    ensures
        all_moves(schedule(p, vc, b)),
        agree(effect(s, regs, schedule(p, vc, b)), goal, vc),
    decreases p.len(),
{
    if p.len() == 0 {
        assert(schedule(p, vc, b) =~= Seq::<Op>::empty());
        assert forall|x: u32| (x as nat) < vc implies #[trigger] effect(s, regs, schedule(p, vc, b))(x)
            == goal(x) by {
            assert(regs(x) == goal(x));
        }
    } else {
        lemma_first_free_bound(p, 0);
        match first_free(p, 0) {
            Some(i) => {
                let i = i as int;
                let d = p[i].0;
                let src = p[i].1;
                let r1 = set_reg(regs, d.0, regs(src.0));
                let p2 = p.remove(i);
                p.remove_ensures(i);
                lemma_copy_effect(s, regs, d, src);
                assert(regs(src.0) == goal(d.0));
                assert forall|j: int| 0 <= j < p2.len() implies r1((#[trigger] p2[j]).1.0) == goal(
                    p2[j].0.0,
                ) by {
                    let k = if j < i {
                        j
                    } else {
                        j + 1
                    };
                    assert(p2[j] == p[k]);
                    assert(p[k].1 != d);
                }
                assert forall|x: u32|
                    (x as nat) < vc && (forall|j: int| 0 <= j < p2.len() ==> (#[trigger] p2[j]).0.0 != x) implies #[trigger] r1(
                    x,
                ) == goal(x) by {
                    if x != d.0 {
                        assert forall|k: int| 0 <= k < p.len() implies (#[trigger] p[k]).0.0 != x by {
                            if k < i {
                                assert(p2[k] == p[k]);
                            } else if k > i {
                                assert(p2[k - 1] == p[k]);
                            }
                        }
                    }
                }
                assert forall|j: int| 0 <= j < p2.len() implies (#[trigger] p2[j]).0.0 < vc && p2[j].1.0 < vc + b by {
                    if j < i {
                        assert(p2[j] == p[j]);
                    } else {
                        assert(p2[j] == p[j + 1]);
                    }
                }
                lemma_schedule(s, p2, r1, goal, vc, b);
                lemma_effect_append(s, regs, copy(d, src), schedule(p2, vc, b));
                lemma_all_moves_append(copy(d, src), schedule(p2, vc, b));
            },
            None => {
                let d = p[0].0;
                let t = temp_reg(vc, b);
                let q = redirect(p, d, t);
                let p3 = q.remove(0);
                q.remove_ensures(0);
                lemma_schedule_temps_grow(p3, vc, b + 1);
                assert(t.0 == vc + b);
                let src = q[0].1;
                let r1 = set_reg(regs, t.0, regs(d.0));
                let r2 = set_reg(r1, d.0, r1(src.0));
                lemma_copy_effect(s, regs, t, d);
                lemma_copy_effect(s, r1, d, src);
                assert(r1(src.0) == goal(d.0)) by {
                    assert(regs(p[0].1.0) == goal(d.0));
                }
                assert forall|j: int| 0 <= j < p3.len() implies (#[trigger] p3[j]).0.0 < vc && p3[j].1.0 < vc
                    + b + 1 && r2(p3[j].1.0) == goal(p3[j].0.0) by {
                    assert(p3[j] == q[j + 1]);
                    assert(regs(p[j + 1].1.0) == goal(p[j + 1].0.0));
                }
                assert forall|x: u32|
                    (x as nat) < vc && (forall|j: int| 0 <= j < p3.len() ==> (#[trigger] p3[j]).0.0 != x) implies #[trigger] r2(
                    x,
                ) == goal(x) by {
                    if x != d.0 {
                        assert forall|k: int| 0 <= k < p.len() implies (#[trigger] p[k]).0.0 != x by {
                            if k > 0 {
                                assert(p3[k - 1] == q[k]);
                            }
                        }
                    }
                }
                lemma_schedule(s, p3, r2, goal, vc, b + 1);
                let c = copy(t, d) + copy(d, src);
                lemma_effect_append(s, regs, copy(t, d), copy(d, src));
                lemma_effect_append(s, regs, c, schedule(p3, vc, b + 1));
                lemma_all_moves_append(copy(t, d), copy(d, src));
                lemma_all_moves_append(c, schedule(p3, vc, b + 1));
            },
        }
    }
}

/// The moves of an edge, from a register file that agrees with an environment on
/// the values, leave one that agrees with the environment on entering the
/// target.
proof fn lemma_edge_moves<V>(s: Interp<V>, r: spec_fn(u32) -> V, env: spec_fn(u32) -> V, e: EdgeModel, vc: nat)
    requires
        vc + edge_temps(e, vc) <= u32::MAX,
        forall|j: int| 0 <= j < e.args.len() ==> #[trigger] e.args[j] < vc,
        forall|j: int| 0 <= j < e.params.len() ==> #[trigger] e.params[j] < vc,
        agree(r, env, vc),
    ensures
        all_moves(edge_moves(e, vc)),
        agree(effect(s, r, edge_moves(e, vc)), take_edge(env, e), vc),
{
    let n = pairs(e);
    let p = live_pairs(e, n);
    let goal = take_edge(env, e);
    lemma_live_pairs_agree(env, e, n, vc);
    assert forall|x: u32|
        (x as nat) < vc && (forall|i: int| 0 <= i < p.len() ==> (#[trigger] p[i]).0.0 != x) implies #[trigger] r(x)
        == goal(x) by {
        assert forall|j: int|
            0 <= j < n && #[trigger] (e.params[j] as u32) == x implies (e.args[j] as u32) == x || exists|k: int|
            j < k < n && #[trigger] (e.params[k] as u32) == x by {
            if (e.args[j] as u32) != x && !(exists|k: int| j < k < n && #[trigger] (e.params[k] as u32) == x) {
                assert(!exists|k: int| j < k < n && #[trigger] dst_of(e, k) == dst_of(e, j)) by {
                    if exists|k: int| j < k < n && #[trigger] dst_of(e, k) == dst_of(e, j) {
                        let k = choose|k: int| j < k < n && #[trigger] dst_of(e, k) == dst_of(e, j);
                        assert((e.params[k] as u32) == x);
                    }
                }
                assert(live(e, j));
                lemma_live_pairs_cover(e, n, j);
            }
        }
        lemma_pass_args_keeps(env, e.args, e.params, n, x);
    }
    assert forall|i: int| 0 <= i < p.len() implies r((#[trigger] p[i]).1.0) == goal(p[i].0.0) by {}
    lemma_schedule(s, p, r, goal, vc, 0);
}

/// An edge's code, placed at `pc` and run from a register file that agrees with
/// an environment on the values, passes the arguments and enters the target block.
proof fn lemma_edge<V>(
    m: FnModel,
    s: Interp<V>,
    r: spec_fn(u32) -> V,
    env: spec_fn(u32) -> V,
    pc: nat,
    e: EdgeModel,
) -> (c: nat)
    requires
        fits(m),
        e.well_formed(m.block_count, m.value_count),
        m.value_count + edge_temps(e, m.value_count as nat) <= u32::MAX,
        agree(r, env, m.value_count as nat),
        pc + edge_ops(e, m.value_count as nat).len() <= lower_spec(m).ops.len(),
        forall|y: int|
            0 <= y < edge_ops(e, m.value_count as nat).len() ==> lower_spec(m).ops[pc + y]
                == #[trigger] edge_ops(e, m.value_count as nat)[y],
    ensures
        c >= 1,
        agree(effect(s, r, edge_moves(e, m.value_count as nat)), take_edge(env, e), m.value_count as nat),
        forall|g: nat| g < c ==> #[trigger] run_program(lower_spec(m), s, r, pc, g) is None,
        forall|g: nat|
            g >= c ==> #[trigger] run_program(lower_spec(m), s, r, pc, g) == run_program(
                lower_spec(m),
                s,
                effect(s, r, edge_moves(e, m.value_count as nat)),
                block_start(m, e.target as nat),
                (g - c) as nat,
            ),
{
    let p = lower_spec(m);
    let vc = m.value_count as nat;
    let mv = edge_moves(e, vc);
    let ops = edge_ops(e, vc);
    let t = e.target as nat;
    lemma_edge_moves(s, r, env, e, vc);
    lemma_labels(m);
    lemma_start_monotone(m, t, m.blocks.len());
    assert forall|x: int| 0 <= x < mv.len() implies p.ops[pc + x] == #[trigger] mv[x] by {
        assert(ops[x] == mv[x]);
    }
    assert forall|x: int| 0 <= x < mv.len() implies is_straight(#[trigger] mv[x]) by {
        assert(mv[x] is Move);
    }
    assert(ops[mv.len() as int] == Op::Jump { target: label_of(e.target) });
    assert(p.ops[(pc + mv.len()) as int] == Op::Jump { target: label_of(e.target) });
    assert(p.labels[t as int] == block_start(m, t) as u32);
    assert(p.label_offset(label_of(e.target)) == Some(block_start(m, t) as int));
    let after = effect(s, r, mv);
    assert forall|g: nat| g < mv.len() + 1 implies #[trigger] run_program(p, s, r, pc, g) is None by {
        lemma_straight_run(p, s, pc, mv, r, g);
    }
    assert forall|g: nat| g >= mv.len() + 1 implies #[trigger] run_program(p, s, r, pc, g)
        == run_program(p, s, after, block_start(m, t), (g - (mv.len() + 1)) as nat) by {
        lemma_straight_run(p, s, pc, mv, r, g);
    }
    mv.len() + 1
}

/// What the program does once a block's code has run, `c` ops in, from register
/// file `regs` at the block's start: return what the block returns, or go on as
/// the program does from the start of the block entered, with a register file
/// that agrees with the environment the block enters it with.
pub open spec fn continues_as<V>(
    m: FnModel,
    s: Interp<V>,
    regs: spec_fn(u32) -> V,
    b: nat,
    out: Outcome<V>,
    c: nat,
    next_regs: spec_fn(u32) -> V,
) -> bool {
    let p = lower_spec(m);
    match out {
        Outcome::Returned(v) => forall|f: nat|
            f >= c ==> #[trigger] run_program(p, s, regs, block_start(m, b), f) == Some(v),
        Outcome::Enter(t, env) => {
            &&& agree(next_regs, env, m.value_count as nat)
            &&& forall|f: nat|
                f >= c ==> #[trigger] run_program(p, s, regs, block_start(m, b), f) == run_program(
                    p,
                    s,
                    next_regs,
                    block_start(m, t),
                    (f - c) as nat,
                )
        },
        Outcome::Stuck => false,
    }
}

/// The code of a block, run from its start with a register file that agrees with
/// an environment on the values, does what the block does, at some cost in ops:
/// with less fuel it does not finish; with more, it continues as the block
/// continues.
proof fn lemma_block<V>(
    m: FnModel,
    s: Interp<V>,
    r: spec_fn(u32) -> V,
    env: spec_fn(u32) -> V,
    b: nat,
) -> (res: (nat, spec_fn(u32) -> V))
    requires
        m.well_formed(),
        fits(m),
        registers_fit(m),
        b < m.blocks.len(),
        agree(r, env, m.value_count as nat),
    ensures
        res.0 >= 1,
        forall|f: nat|
            f < res.0 ==> #[trigger] run_program(lower_spec(m), s, r, block_start(m, b), f) is None,
        continues_as(m, s, r, b, block_step(m, s, env, b), res.0, res.1),
{
    let p = lower_spec(m);
    let vc = m.value_count as nat;
    let st = block_start(m, b);
    let blk = m.blocks[b as int];
    assert(blk.well_formed(m.block_count, m.value_count));
    let insts = inst_ops(blk.insts);
    let l = insts.len();
    let t = blk.terminator.unwrap();
    let tops = term_ops(t, else_label(m, b), vc);
    let code = block_code(m, b);
    assert(code == insts + tops);
    lemma_block_at(m, b);
    lemma_temps_bound(m, b, m.blocks.len());
    lemma_inst_effect(s, r, env, blk.insts, vc);
    let after = run_insts(s, env, blk.insts);
    let ra = effect(s, r, insts);
    assert forall|x: int| 0 <= x < insts.len() implies p.ops[st + x] == #[trigger] insts[x] by {
        assert(code[x] == insts[x]);
    }
    assert forall|y: int| 0 <= y < tops.len() implies p.ops[st + l + y] == #[trigger] tops[y] by {
        assert(code[l + y] == tops[y]);
    }
    // The instructions run first.
    assert forall|f: nat| f < l implies #[trigger] run_program(p, s, r, st, f) is None by {
        lemma_straight_run(p, s, st, insts, r, f);
    }
    assert forall|f: nat| f >= l implies #[trigger] run_program(p, s, r, st, f) == run_program(
        p,
        s,
        ra,
        st + l,
        (f - l) as nat,
    ) by {
        lemma_straight_run(p, s, st, insts, r, f);
    }
    let pc = st + l;
    assert(m.blocks[b as int].terminator == Some(t));
    match t {
        TermModel::Return(v) => {
            assert(p.ops[pc as int] == tops[0]);
            assert forall|f: nat| f < l + 1 implies #[trigger] run_program(p, s, r, st, f) is None by {
                if f >= l {
                    assert(run_program(p, s, r, st, f) == run_program(p, s, ra, pc, (f - l) as nat));
                }
            }
            assert forall|f: nat| f >= l + 1 implies #[trigger] run_program(p, s, r, st, f)
                == Some(match v { Some(x) => Some(after(x as u32)), None => None }) by {
                assert(run_program(p, s, r, st, f) == run_program(p, s, ra, pc, (f - l) as nat));
                if let Some(x) = v {
                    assert(ra(x as u32) == after(x as u32));
                }
            }
            (l + 1, r)
        },
        TermModel::Jump(e) => {
            assert(tops == edge_ops(e, vc));
            let ce = lemma_edge(m, s, ra, after, pc, e);
            let rn = effect(s, ra, edge_moves(e, vc));
            assert forall|f: nat| f < l + ce implies #[trigger] run_program(p, s, r, st, f) is None by {
                if f >= l {
                    assert(run_program(p, s, r, st, f) == run_program(p, s, ra, pc, (f - l) as nat));
                }
            }
            assert forall|f: nat| f >= l + ce implies #[trigger] run_program(p, s, r, st, f)
                == run_program(p, s, rn, block_start(m, e.target as nat), (f - (l + ce)) as nat) by {
                assert(run_program(p, s, r, st, f) == run_program(p, s, ra, pc, (f - l) as nat));
            }
            (l + ce, rn)
        },
        TermModel::Branch { cond, then_edge, else_edge } => {
            let arm = else_label(m, b);
            let thn = edge_ops(then_edge, vc);
            let els = edge_ops(else_edge, vc);
            assert(tops == seq![Op::JumpUnless { cond: reg_of(cond), target: arm }] + thn + els);
            assert(tops[0] == Op::JumpUnless { cond: reg_of(cond), target: arm });
            assert(p.ops[st + l + 0int] == tops[0]);
            assert(p.ops[pc as int] == Op::JumpUnless { cond: reg_of(cond), target: arm });
            assert forall|y: int| 0 <= y < thn.len() implies p.ops[pc + 1 + y] == #[trigger] thn[y] by {
                assert(tops[1 + y] == thn[y]);
            }
            let else_pc = pc + 1 + thn.len();
            assert forall|y: int| 0 <= y < els.len() implies p.ops[else_pc + y] == #[trigger] els[y] by {
                assert(tops[1 + thn.len() + y] == els[y]);
            }
            lemma_labels(m);
            assert(is_branch(m.blocks[b as int]));
            assert(else_start(m, b) == else_pc);
            lemma_start_monotone(m, b, m.blocks.len());
            assert(p.labels[m.block_count + branches_before(m, b)] == else_start(m, b) as u32);
            lemma_branches_monotone(m, b + 1, m.blocks.len());
            assert(arm.0 as int == m.block_count + branches_before(m, b));
            assert(p.label_offset(arm) == Some(else_pc as int));
            assert(ra(reg_of(cond).0) == after(cond as u32));
            if (s.truthy)(after(cond as u32)) {
                let ce = lemma_edge(m, s, ra, after, pc + 1, then_edge);
                let rn = effect(s, ra, edge_moves(then_edge, vc));
                assert forall|g: nat| g >= 1 implies #[trigger] run_program(p, s, ra, pc, g)
                    == run_program(p, s, ra, pc + 1, (g - 1) as nat) by {}
                assert forall|f: nat| f < l + 1 + ce implies #[trigger] run_program(p, s, r, st, f) is None by {
                    if f >= l {
                        assert(run_program(p, s, r, st, f) == run_program(p, s, ra, pc, (f - l) as nat));
                        if f >= l + 1 {
                            assert(run_program(p, s, ra, pc, (f - l) as nat) == run_program(p, s, ra, pc + 1, (f - l - 1) as nat));
                        }
                    }
                }
                assert forall|f: nat| f >= l + 1 + ce implies #[trigger] run_program(p, s, r, st, f)
                    == run_program(p, s, rn, block_start(m, then_edge.target as nat), (f - (l + 1 + ce)) as nat) by {
                    assert(run_program(p, s, r, st, f) == run_program(p, s, ra, pc, (f - l) as nat));
                    assert(run_program(p, s, ra, pc, (f - l) as nat) == run_program(p, s, ra, pc + 1, (f - l - 1) as nat));
                }
                (l + 1 + ce, rn)
            } else {
                let ce = lemma_edge(m, s, ra, after, else_pc, else_edge);
                let rn = effect(s, ra, edge_moves(else_edge, vc));
                assert forall|g: nat| g >= 1 implies #[trigger] run_program(p, s, ra, pc, g)
                    == run_program(p, s, ra, else_pc, (g - 1) as nat) by {}
                assert forall|f: nat| f < l + 1 + ce implies #[trigger] run_program(p, s, r, st, f) is None by {
                    if f >= l {
                        assert(run_program(p, s, r, st, f) == run_program(p, s, ra, pc, (f - l) as nat));
                        if f >= l + 1 {
                            assert(run_program(p, s, ra, pc, (f - l) as nat) == run_program(p, s, ra, else_pc, (f - l - 1) as nat));
                        }
                    }
                }
                assert forall|f: nat| f >= l + 1 + ce implies #[trigger] run_program(p, s, r, st, f)
                    == run_program(p, s, rn, block_start(m, else_edge.target as nat), (f - (l + 1 + ce)) as nat) by {
                    assert(run_program(p, s, r, st, f) == run_program(p, s, ra, pc, (f - l) as nat));
                    assert(run_program(p, s, ra, pc, (f - l) as nat) == run_program(p, s, ra, else_pc, (f - l - 1) as nat));
                }
                (l + 1 + ce, rn)
            }
        },
    }
}

/// A run of the function that returns is matched by a run of its program from
/// the start of the same block, with a register file that agrees with the
/// function's environment on the values, that returns the same.
proof fn lemma_function_to_program<V>(
    m: FnModel,
    s: Interp<V>,
    r: spec_fn(u32) -> V,
    env: spec_fn(u32) -> V,
    b: nat,
    k: nat,
    out: Option<V>,
) -> (f: nat)
    requires
        m.well_formed(),
        fits(m),
        registers_fit(m),
        agree(r, env, m.value_count as nat),
        run_function(m, s, env, b, k) == Some(out),
    ensures
        run_program(lower_spec(m), s, r, block_start(m, b), f) == Some(out),
    decreases k,
{
    let (c, rn) = lemma_block(m, s, r, env, b);
    match block_step(m, s, env, b) {
        Outcome::Returned(_) => c,
        Outcome::Enter(t, next) => {
            let f1 = lemma_function_to_program(m, s, rn, next, t, (k - 1) as nat, out);
            assert(run_program(lower_spec(m), s, r, block_start(m, b), f1 + c) == run_program(
                lower_spec(m),
                s,
                rn,
                block_start(m, t),
                f1,
            ));
            f1 + c
        },
        Outcome::Stuck => 0,
    }
}

/// A run of the program from the start of a block, with a register file that
/// agrees with an environment on the values, that returns is matched by a run of
/// the function from that block and environment that returns the same.
proof fn lemma_program_to_function<V>(
    m: FnModel,
    s: Interp<V>,
    r: spec_fn(u32) -> V,
    env: spec_fn(u32) -> V,
    b: nat,
    f: nat,
    out: Option<V>,
) -> (k: nat)
    requires
        m.well_formed(),
        fits(m),
        registers_fit(m),
        b < m.blocks.len(),
        agree(r, env, m.value_count as nat),
        run_program(lower_spec(m), s, r, block_start(m, b), f) == Some(out),
    ensures
        run_function(m, s, env, b, k) == Some(out),
    decreases f,
{
    let (c, rn) = lemma_block(m, s, r, env, b);
    assert(f >= c);
    match block_step(m, s, env, b) {
        Outcome::Returned(_) => 1,
        Outcome::Enter(t, next) => {
            let blk = m.blocks[b as int];
            assert(blk.well_formed(m.block_count, m.value_count));
            assert(t < m.blocks.len());
            assert(run_program(lower_spec(m), s, rn, block_start(m, t), (f - c) as nat) == Some(out));
            let k1 = lemma_program_to_function(m, s, rn, next, t, (f - c) as nat, out);
            k1 + 1
        },
        Outcome::Stuck => 0,
    }
}

/// Lowering preserves meaning: for every interpretation of constants and
/// operations and every initial register file, the lowered program, run from its
/// first op, returns a result exactly when the function, run from its entry block
/// with the same registers as its environment, returns that result.
///
/// It holds of every function that `Function::validate` accepts whose entry block
/// is block zero and that stays within the bytecode's limits on labels, op
/// offsets and registers.
pub proof fn lemma_lowering_preserves_meaning<V>(
    m: FnModel,
    s: Interp<V>,
    env: spec_fn(u32) -> V,
    out: Option<V>,
)
    requires
        m.well_formed(),
        m.entry == 0,
        fits(m),
        registers_fit(m),
    ensures
        (exists|k: nat| run_function(m, s, env, m.entry as nat, k) == Some(out)) <==> (exists|f: nat|
            run_program(lower_spec(m), s, env, 0, f) == Some(out)),
{
    assert(block_start(m, 0) == 0);
    assert(agree(env, env, m.value_count as nat));
    if exists|k: nat| run_function(m, s, env, m.entry as nat, k) == Some(out) {
        let k = choose|k: nat| run_function(m, s, env, m.entry as nat, k) == Some(out);
        let f = lemma_function_to_program(m, s, env, env, 0, k, out);
        assert(run_program(lower_spec(m), s, env, 0, f) == Some(out));
    }
    if exists|f: nat| run_program(lower_spec(m), s, env, 0, f) == Some(out) {
        let f = choose|f: nat| run_program(lower_spec(m), s, env, 0, f) == Some(out);
        let k = lemma_program_to_function(m, s, env, env, 0, f, out);
        assert(run_function(m, s, env, m.entry as nat, k) == Some(out));
    }
}

/// Every program the bytecode backend emits is faithful to the function it was
/// lowered from: what `compile` returns for a function it accepts returns a
/// result exactly when the function does, under every interpretation and from
/// every initial register file, for a function whose entry block is block zero
/// and that stays within the bytecode's limits. (That the function is
/// well-formed is what `compile` ensures of every function it accepts.)
pub proof fn lemma_compiled_program_is_faithful<V>(
    func: Function,
    p: Program,
    s: Interp<V>,
    env: spec_fn(u32) -> V,
    out: Option<V>,
)
    requires
        compiled(func, Ok::<Program, CodegenError>(p)),
        ir_model(func).well_formed(),
        ir_model(func).entry == 0,
        fits(ir_model(func)),
        registers_fit(ir_model(func)),
    ensures
        (exists|k: nat| run_function(ir_model(func), s, env, 0, k) == Some(out)) <==> (exists|f: nat|
            run_program(p@, s, env, 0, f) == Some(out)),
{
    lemma_lowering_preserves_meaning(ir_model(func), s, env, out);
}

} // verus!
