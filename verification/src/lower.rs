//! Lowering an [`IrFunction`] to a bytecode [`Program`].
//!
//! The pass is one walk of the blocks in creation order. Each value is held in the
//! register with its index, each instruction becomes one op, and each block a label
//! at the op where its code begins. A value crosses a block boundary as a `Move`
//! into the target block's parameter register, emitted on the edge; the moves of
//! an edge pass its arguments as one simultaneous assignment, ordered so that no
//! move overwrites a register a later one reads, with a cycle among them broken
//! through a scratch register past the values. A two-way branch is laid out as a
//! `JumpUnless` and two exclusive arms, the second opened by a label appended
//! past the block labels.

use crate::ir::{BlockModel, EdgeModel, FnModel, IrEdge, IrFunction, IrInst, IrTerminator, TermModel};
use crate::program::{Const, Label, Op, Program, ProgramModel, Reg};
use vstd::prelude::*;

verus! {

/// The register holding the value with index `v`.
pub open spec fn reg_of(v: usize) -> Reg {
    Reg(v as u32)
}

/// The label of the block with index `b`.
pub open spec fn label_of(b: usize) -> Label {
    Label(b as u32)
}

/// The op an instruction defining value `v` lowers to.
pub open spec fn inst_op(v: usize, inst: IrInst) -> Op {
    match inst {
        IrInst::Iconst(c) => Op::Const { dst: reg_of(v), value: Const::Int(c) },
        IrInst::Fconst(bits) => Op::Const { dst: reg_of(v), value: Const::Float(bits) },
        IrInst::Bconst(c) => Op::Const { dst: reg_of(v), value: Const::Bool(c) },
        IrInst::Bin(op, l, r) => Op::Bin { op, dst: reg_of(v), lhs: reg_of(l), rhs: reg_of(r) },
        IrInst::Un(op, s) => Op::Un { op, dst: reg_of(v), src: reg_of(s) },
    }
}

/// The ops of a run of instructions: one per instruction, in order; an entry with
/// no instruction contributes none.
pub open spec fn inst_ops(insts: Seq<(usize, Option<IrInst>)>) -> Seq<Op>
    decreases insts.len(),
{
    if insts.len() == 0 {
        seq![]
    } else {
        let rest = inst_ops(insts.drop_last());
        match insts.last().1 {
            Some(i) => rest.push(inst_op(insts.last().0, i)),
            None => rest,
        }
    }
}

/// How many argument/parameter pairs an edge carries.
pub open spec fn pairs(e: EdgeModel) -> nat {
    if e.args.len() <= e.params.len() {
        e.args.len()
    } else {
        e.params.len()
    }
}

/// The register receiving the argument of pair `i`: the target's parameter.
pub open spec fn dst_of(e: EdgeModel, i: int) -> Reg {
    reg_of(e.params[i])
}

/// The register holding the argument of pair `i`.
pub open spec fn src_of(e: EdgeModel, i: int) -> Reg {
    reg_of(e.args[i])
}

/// The `k`-th scratch register past the `vc` registers of the values.
pub open spec fn temp_reg(vc: nat, k: nat) -> Reg {
    Reg((vc + k) as u32)
}

/// A copy of `src` into `dst`; none where they are the same register.
pub open spec fn copy(dst: Reg, src: Reg) -> Seq<Op> {
    if dst != src {
        seq![Op::Move { dst, src }]
    } else {
        seq![]
    }
}

/// Whether the copy of pair `i` has to be made: no later pair of the edge passes
/// an argument to the same parameter, and the argument is not already held in the
/// parameter's register.
pub open spec fn live(e: EdgeModel, i: int) -> bool {
    &&& dst_of(e, i) != src_of(e, i)
    &&& !exists|j: int| i < j < pairs(e) && #[trigger] dst_of(e, j) == dst_of(e, i)
}

/// The copies, as (destination, source) pairs, that the first `k` pairs of an
/// edge have to make, in order.
pub open spec fn live_pairs(e: EdgeModel, k: nat) -> Seq<(Reg, Reg)>
    decreases k,
{
    if k == 0 {
        seq![]
    } else {
        let i = k - 1;
        live_pairs(e, (k - 1) as nat) + if live(e, i) {
            seq![(dst_of(e, i), src_of(e, i))]
        } else {
            seq![]
        }
    }
}

/// Whether copy `i` of the pending copies `p` can be made now: no pending copy
/// still reads the register it writes.
pub open spec fn is_free(p: Seq<(Reg, Reg)>, i: int) -> bool {
    forall|j: int| 0 <= j < p.len() ==> #[trigger] p[j].1 != p[i].0
}

/// The first pending copy at or after `k` that can be made now, if any.
pub open spec fn first_free(p: Seq<(Reg, Reg)>, k: nat) -> Option<nat>
    decreases p.len() - k,
{
    if k >= p.len() {
        None
    } else if is_free(p, k as int) {
        Some(k)
    } else {
        first_free(p, k + 1)
    }
}

/// The pending copies with every read of register `d` turned into a read of `t`.
pub open spec fn redirect(p: Seq<(Reg, Reg)>, d: Reg, t: Reg) -> Seq<(Reg, Reg)> {
    p.map_values(
        |q: (Reg, Reg)|
            if q.1 == d {
                (q.0, t)
            } else {
                q
            },
    )
}

/// The moves making the pending copies `p` as one simultaneous assignment, with
/// `temp_reg(vc, b)` the next free scratch register.
///
/// A copy whose destination no pending copy still reads is made first. When
/// there is none, the pending copies form cycles: the first copy's destination
/// is saved in the next scratch register, its readers read it there, and the
/// copy is made.
pub open spec fn schedule(p: Seq<(Reg, Reg)>, vc: nat, b: nat) -> Seq<Op>
    decreases p.len(),
{
    if p.len() == 0 {
        seq![]
    } else {
        match first_free(p, 0) {
            Some(i) => {
                proof {
                    lemma_first_free_bound(p, 0);
                }
                copy(p[i as int].0, p[i as int].1) + schedule(p.remove(i as int), vc, b)
            },
            None => {
                let d = p[0].0;
                let t = temp_reg(vc, b);
                let q = redirect(p, d, t);
                copy(t, d) + copy(d, q[0].1) + schedule(q.remove(0), vc, b + 1)
            },
        }
    }
}

/// The number of scratch registers in use once `schedule(p, vc, b)` has run: `b`
/// and one more per cycle it breaks.
pub open spec fn schedule_temps(p: Seq<(Reg, Reg)>, vc: nat, b: nat) -> nat
    decreases p.len(),
{
    if p.len() == 0 {
        b
    } else {
        match first_free(p, 0) {
            Some(i) => {
                proof {
                    lemma_first_free_bound(p, 0);
                }
                schedule_temps(p.remove(i as int), vc, b)
            },
            None => {
                let d = p[0].0;
                let q = redirect(p, d, temp_reg(vc, b));
                schedule_temps(q.remove(0), vc, b + 1)
            },
        }
    }
}

/// A copy found free lies among the pending copies.
pub proof fn lemma_first_free_bound(p: Seq<(Reg, Reg)>, k: nat)
    ensures
        first_free(p, k) matches Some(i) ==> k <= i < p.len() && is_free(p, i as int),
    decreases p.len() - k,
{
    if k < p.len() && !is_free(p, k as int) {
        lemma_first_free_bound(p, k + 1);
    }
}

/// Scheduling never gives back a scratch register.
pub proof fn lemma_schedule_temps_grow(p: Seq<(Reg, Reg)>, vc: nat, b: nat)
    ensures
        schedule_temps(p, vc, b) >= b,
    decreases p.len(),
{
    if p.len() > 0 {
        lemma_first_free_bound(p, 0);
        match first_free(p, 0) {
            Some(i) => lemma_schedule_temps_grow(p.remove(i as int), vc, b),
            None => {
                let q = redirect(p, p[0].0, temp_reg(vc, b));
                lemma_schedule_temps_grow(q.remove(0), vc, b + 1);
            },
        }
    }
}

/// The moves passing an edge's arguments into its target's parameters, in a
/// function with `vc` values, as one simultaneous assignment.
pub open spec fn edge_moves(e: EdgeModel, vc: nat) -> Seq<Op> {
    schedule(live_pairs(e, pairs(e)), vc, 0)
}

/// How many scratch registers an edge uses: one per cycle among its copies.
pub open spec fn edge_temps(e: EdgeModel, vc: nat) -> nat {
    schedule_temps(live_pairs(e, pairs(e)), vc, 0)
}

/// The ops of an edge: its argument moves, then a jump to the target block.
pub open spec fn edge_ops(e: EdgeModel, vc: nat) -> Seq<Op> {
    edge_moves(e, vc).push(Op::Jump { target: label_of(e.target) })
}

/// The larger of two counts.
pub open spec fn larger(a: nat, b: nat) -> nat {
    if a >= b {
        a
    } else {
        b
    }
}

/// The ops of a terminator in a function with `vc` values; `else_arm` is the
/// label that opens a branch's second arm.
pub open spec fn term_ops(t: TermModel, else_arm: Label, vc: nat) -> Seq<Op> {
    match t {
        TermModel::Return(v) => seq![
            Op::Return {
                value: match v {
                    Some(x) => Some(reg_of(x)),
                    None => None,
                },
            },
        ],
        TermModel::Jump(e) => edge_ops(e, vc),
        TermModel::Branch { cond, then_edge, else_edge } => seq![
            Op::JumpUnless { cond: reg_of(cond), target: else_arm },
        ] + edge_ops(then_edge, vc) + edge_ops(else_edge, vc),
    }
}

/// How many scratch registers a terminator's edges use.
pub open spec fn term_temps(t: TermModel, vc: nat) -> nat {
    match t {
        TermModel::Return(_) => 0,
        TermModel::Jump(e) => edge_temps(e, vc),
        TermModel::Branch { then_edge, else_edge, .. } => larger(
            edge_temps(then_edge, vc),
            edge_temps(else_edge, vc),
        ),
    }
}

/// How many scratch registers a block's terminator uses.
pub open spec fn block_temps(b: BlockModel, vc: nat) -> nat {
    match b.terminator {
        Some(t) => term_temps(t, vc),
        None => 0,
    }
}

/// How many scratch registers the first `k` blocks use.
pub open spec fn temps_before(m: FnModel, k: nat) -> nat
    decreases k,
{
    if k == 0 {
        0
    } else {
        larger(temps_before(m, (k - 1) as nat), block_temps(m.blocks[k - 1], m.value_count as nat))
    }
}

/// Whether a block ends in a two-way branch.
pub open spec fn is_branch(b: BlockModel) -> bool {
    b.terminator matches Some(TermModel::Branch { .. })
}

/// How many of the first `k` blocks end in a branch.
pub open spec fn branches_before(m: FnModel, k: nat) -> nat
    decreases k,
{
    if k == 0 {
        0
    } else {
        branches_before(m, (k - 1) as nat) + if is_branch(m.blocks[k - 1]) {
            1nat
        } else {
            0nat
        }
    }
}

/// The label opening the second arm of block `b`'s branch: the next label past the
/// block labels and the arms of earlier branches.
pub open spec fn else_label(m: FnModel, b: nat) -> Label {
    Label((m.block_count + branches_before(m, b)) as u32)
}

/// The ops of block `b`, with `else_arm` the label opening a branch's second arm:
/// its instructions' ops, then its terminator's.
pub open spec fn block_ops(m: FnModel, b: nat, else_arm: Label) -> Seq<Op> {
    let blk = m.blocks[b as int];
    inst_ops(blk.insts) + match blk.terminator {
        Some(t) => term_ops(t, else_arm, m.value_count as nat),
        None => seq![],
    }
}

/// The code of block `b` as it is laid out.
pub open spec fn block_code(m: FnModel, b: nat) -> Seq<Op> {
    block_ops(m, b, else_label(m, b))
}

/// The code of the first `k` blocks, laid out one after another.
pub open spec fn code_before(m: FnModel, k: nat) -> Seq<Op>
    decreases k,
{
    if k == 0 {
        seq![]
    } else {
        code_before(m, (k - 1) as nat) + block_code(m, (k - 1) as nat)
    }
}

/// Where the code of block `b` begins.
pub open spec fn block_start(m: FnModel, b: nat) -> nat {
    code_before(m, b).len()
}

/// Where the second arm of block `b`'s branch begins.
pub open spec fn else_start(m: FnModel, b: nat) -> nat {
    let blk = m.blocks[b as int];
    match blk.terminator {
        Some(TermModel::Branch { then_edge, .. }) => block_start(m, b) + inst_ops(blk.insts).len()
            + 1 + edge_ops(then_edge, m.value_count as nat).len(),
        _ => 0,
    }
}

/// The labels after the first `k` blocks are laid out: one per block of the
/// function, each block's set to where its code begins as it is reached, and one
/// appended per branch, set to where its second arm begins.
pub open spec fn labels_before(m: FnModel, k: nat) -> Seq<u32>
    decreases k,
{
    if k == 0 {
        Seq::new(m.block_count as nat, |i: int| 0u32)
    } else {
        let b = (k - 1) as nat;
        let set = labels_before(m, b).update(b as int, block_start(m, b) as u32);
        if is_branch(m.blocks[b as int]) {
            set.push(0u32).update(else_label(m, b).0 as int, else_start(m, b) as u32)
        } else {
            set
        }
    }
}

/// The program a function lowers to.
pub open spec fn lower_spec(m: FnModel) -> ProgramModel {
    ProgramModel {
        name: m.name,
        params: m.entry_params.map_values(|v: usize| reg_of(v)),
        registers: (m.value_count + temps_before(m, m.blocks.len())) as u32,
        ops: code_before(m, m.blocks.len()),
        labels: labels_before(m, m.blocks.len()),
    }
}

proof fn lemma_labels_len(m: FnModel, k: nat)
    requires
        k <= m.blocks.len() <= m.block_count,
    ensures
        labels_before(m, k).len() == m.block_count + branches_before(m, k),
    decreases k,
{
    if k > 0 {
        lemma_labels_len(m, (k - 1) as nat);
    }
}

proof fn lemma_inst_ops_step(insts: Seq<(usize, Option<IrInst>)>, j: int)
    requires
        0 <= j < insts.len(),
    ensures
        inst_ops(insts.take(j + 1)) == match insts[j].1 {
            Some(i) => inst_ops(insts.take(j)).push(inst_op(insts[j].0, i)),
            None => inst_ops(insts.take(j)),
        },
{
    assert(insts.take(j + 1).drop_last() =~= insts.take(j));
}

/// The register a value is held in: its index.
fn register(value: usize) -> (res: Reg)
    ensures
        res == reg_of(value),
{
    Reg(value as u32)
}

/// The label of a block: its index.
fn block_label(block: usize) -> (res: Label)
    ensures
        res == label_of(block),
{
    Label(block as u32)
}

/// The registers holding the entry block's parameters: the function's parameters.
fn param_registers(ir: &IrFunction) -> (res: Vec<Reg>)
    ensures
        res@ == ir@.entry_params.map_values(|v: usize| reg_of(v)),
{
    let mut res: Vec<Reg> = Vec::new();
    for i in 0..ir.entry_params.len()
        invariant
            res@ == ir@.entry_params.take(i as int).map_values(|v: usize| reg_of(v)),
    {
        res.push(register(ir.entry_params[i]));
        assert(res@ =~= ir@.entry_params.take(i + 1).map_values(|v: usize| reg_of(v)));
    }
    assert(ir@.entry_params.take(ir.entry_params.len() as int) =~= ir@.entry_params);
    res
}

/// The single op a value-producing instruction lowers to.
fn lower_inst(dst: usize, inst: &IrInst) -> (res: Op)
    ensures
        res == inst_op(dst, *inst),
{
    match inst {
        IrInst::Iconst(value) => Op::Const { dst: register(dst), value: Const::Int(*value) },
        IrInst::Fconst(value) => Op::Const { dst: register(dst), value: Const::Float(*value) },
        IrInst::Bconst(value) => Op::Const { dst: register(dst), value: Const::Bool(*value) },
        IrInst::Bin(op, lhs, rhs) => Op::Bin {
            op: *op,
            dst: register(dst),
            lhs: register(*lhs),
            rhs: register(*rhs),
        },
        IrInst::Un(op, src) => Op::Un { op: *op, dst: register(dst), src: register(*src) },
    }
}

/// The `k`-th scratch register past the registers of a function's values.
fn temp_register(value_count: usize, k: usize) -> (res: Reg)
    ensures
        res == temp_reg(value_count as nat, k as nat),
{
    Reg((value_count as u128 + k as u128) as u32)
}

/// Appends a copy of `src` into `dst`, unless they are the same register.
fn push_copy(dst: Reg, src: Reg, ops: &mut Vec<Op>)
    ensures
        final(ops)@ == old(ops)@ + copy(dst, src),
{
    if dst.0 != src.0 {
        ops.push(Op::Move { dst, src });
    }
    assert(final(ops)@ =~= old(ops)@ + copy(dst, src));
}

/// Whether a later pair of an edge passes an argument to the same parameter as
/// pair `i`.
fn passed_again(edge: &IrEdge, i: usize, n: usize) -> (res: bool)
    requires
        i < n,
        n == pairs(edge@),
        n <= edge.params.len(),
    ensures
        res == exists|j: int| i < j < pairs(edge@) && #[trigger] dst_of(edge@, j) == dst_of(edge@, i as int),
{
    let dst = register(edge.params[i]);
    let mut j: usize = i + 1;
    while j < n
        invariant
            i < j <= n,
            n == pairs(edge@),
            n <= edge.params.len(),
            dst == dst_of(edge@, i as int),
            forall|k: int| i < k < j ==> #[trigger] dst_of(edge@, k) != dst_of(edge@, i as int),
        decreases n - j,
    {
        if register(edge.params[j]).0 == dst.0 {
            assert(dst_of(edge@, j as int) == dst_of(edge@, i as int));
            return true;
        }
        j = j + 1;
    }
    false
}

/// The copies an edge has to make, in order.
fn edge_copies(edge: &IrEdge) -> (res: Vec<(Reg, Reg)>)
    ensures
        res@ == live_pairs(edge@, pairs(edge@)),
{
    let n = if edge.args.len() <= edge.params.len() {
        edge.args.len()
    } else {
        edge.params.len()
    };
    let mut res: Vec<(Reg, Reg)> = Vec::new();
    for i in 0..n
        invariant
            n == pairs(edge@),
            n <= edge.args.len(),
            n <= edge.params.len(),
            res@ == live_pairs(edge@, i as nat),
    {
        let dst = register(edge.params[i]);
        let src = register(edge.args[i]);
        if dst.0 != src.0 && !passed_again(edge, i, n) {
            res.push((dst, src));
        }
        assert(res@ =~= live_pairs(edge@, (i + 1) as nat));
    }
    res
}

/// The first pending copy that can be made now, if any.
fn find_free(pending: &Vec<(Reg, Reg)>) -> (res: Option<usize>)
    ensures
        res matches Some(i) ==> first_free(pending@, 0) == Some(i as nat),
        res is None ==> first_free(pending@, 0) is None,
{
    let mut i: usize = 0;
    while i < pending.len()
        invariant
            i <= pending.len(),
            first_free(pending@, 0) == first_free(pending@, i as nat),
        decreases pending.len() - i,
    {
        let d = pending[i].0;
        let mut j: usize = 0;
        let mut free = true;
        while j < pending.len()
            invariant
                i < pending.len(),
                j <= pending.len(),
                d == pending@[i as int].0,
                free <==> forall|k: int| 0 <= k < j ==> #[trigger] pending@[k].1 != d,
            decreases pending.len() - j,
        {
            if pending[j].1.0 == d.0 {
                free = false;
            }
            j = j + 1;
        }
        if free {
            return Some(i);
        }
        i = i + 1;
    }
    None
}

/// Makes every read of register `d` among the pending copies a read of `t`.
fn redirect_reads(pending: &mut Vec<(Reg, Reg)>, d: Reg, t: Reg)
    ensures
        final(pending)@ == redirect(old(pending)@, d, t),
{
    let ghost start = old(pending)@;
    let n = pending.len();
    for k in 0..n
        invariant
            n == start.len(),
            pending@.len() == start.len(),
            forall|x: int| 0 <= x < k ==> #[trigger] pending@[x] == redirect(start, d, t)[x],
            forall|x: int| k <= x < start.len() ==> #[trigger] pending@[x] == start[x],
    {
        let q = pending[k];
        if q.1.0 == d.0 {
            pending.set(k, (q.0, t));
        }
    }
    assert(pending@ =~= redirect(start, d, t));
}

/// Passes an edge's arguments into the parameter registers of its target, as one
/// simultaneous assignment.
///
/// A copy is made once no copy still to be made reads the register it writes, so
/// an argument held in another parameter's register is read before that register
/// is overwritten. Only when the remaining copies form a cycle, as when a loop edge
/// swaps the loop's own parameters, is one register of the cycle saved in a scratch
/// register past the function's values, and read there. Returns how many scratch
/// registers the edge uses.
fn move_arguments(edge: &IrEdge, value_count: usize, ops: &mut Vec<Op>) -> (temps: usize)
    ensures
        final(ops)@ == old(ops)@ + edge_moves(edge@, value_count as nat),
        temps == edge_temps(edge@, value_count as nat),
{
    let ghost vc = value_count as nat;
    let ghost start = old(ops)@;
    let mut pending = edge_copies(edge);
    let ghost all = pending@;
    let total = pending.len();
    let mut b: usize = 0;
    while pending.len() > 0
        invariant
            vc == value_count as nat,
            total == all.len(),
            b + pending@.len() <= all.len(),
            start + schedule(all, vc, 0) == ops@ + schedule(pending@, vc, b as nat),
            schedule_temps(all, vc, 0) == schedule_temps(pending@, vc, b as nat),
        decreases pending.len(),
    {
        let ghost p = pending@;
        let ghost before = ops@;
        proof {
            lemma_first_free_bound(p, 0);
        }
        match find_free(&pending) {
            Some(i) => {
                let (d, s) = pending[i];
                push_copy(d, s, ops);
                pending.remove(i);
                assert(schedule(p, vc, b as nat) == copy(d, s) + schedule(pending@, vc, b as nat));
                assert(before + schedule(p, vc, b as nat) =~= ops@ + schedule(pending@, vc, b as nat));
            },
            None => {
                let d = pending[0].0;
                let t = temp_register(value_count, b);
                push_copy(t, d, ops);
                redirect_reads(&mut pending, d, t);
                let s = pending[0].1;
                push_copy(d, s, ops);
                pending.remove(0);
                assert(schedule(p, vc, b as nat) == copy(t, d) + copy(d, s) + schedule(
                    pending@,
                    vc,
                    (b + 1) as nat,
                ));
                assert(before + schedule(p, vc, b as nat) =~= ops@ + schedule(
                    pending@,
                    vc,
                    (b + 1) as nat,
                ));
                b = b + 1;
            },
        }
    }
    assert(ops@ =~= start + edge_moves(edge@, vc));
    b
}

/// Emits an edge: its argument moves, then a jump to its target. Returns how many
/// scratch registers it uses.
fn lower_edge(edge: &IrEdge, value_count: usize, ops: &mut Vec<Op>) -> (temps: usize)
    ensures
        final(ops)@ == old(ops)@ + edge_ops(edge@, value_count as nat),
        temps == edge_temps(edge@, value_count as nat),
{
    let temps = move_arguments(edge, value_count, ops);
    ops.push(Op::Jump { target: block_label(edge.target) });
    assert(final(ops)@ =~= old(ops)@ + edge_ops(edge@, value_count as nat));
    temps
}

/// Lowers a block's terminator, emitting the argument moves its edges carry.
/// Returns how many scratch registers it uses.
fn lower_terminator(
    terminator: &IrTerminator,
    value_count: usize,
    ops: &mut Vec<Op>,
    labels: &mut Vec<u32>,
) -> (temps: usize)
    ensures
        final(ops)@ == old(ops)@ + term_ops(
            terminator@,
            Label(old(labels)@.len() as u32),
            value_count as nat,
        ),
        temps == term_temps(terminator@, value_count as nat),
        match terminator@ {
            TermModel::Branch { then_edge, .. } => final(labels)@ == old(labels)@.push(0u32).update(
                (old(labels)@.len() as u32) as int,
                (old(ops)@.len() + 1 + edge_ops(then_edge, value_count as nat).len()) as u32,
            ),
            _ => final(labels)@ == old(labels)@,
        },
{
    let ghost vc = value_count as nat;
    match terminator {
        IrTerminator::Return(value) => {
            let v = match value {
                Some(x) => Some(register(*x)),
                None => None,
            };
            ops.push(Op::Return { value: v });
            assert(final(ops)@ =~= old(ops)@ + term_ops(terminator@, Label(old(labels)@.len() as u32), vc));
            0
        },
        IrTerminator::Jump(edge) => lower_edge(edge, value_count, ops),
        IrTerminator::Branch { cond, then_edge, else_edge } => {
            // Two exclusive arms: the `then` arm falls through, and an appended label
            // opens the `else` arm, so the moves of the arm not taken never run.
            let else_arm = Label(labels.len() as u32);
            labels.push(0);
            ops.push(Op::JumpUnless { cond: register(*cond), target: else_arm });
            let then_temps = lower_edge(then_edge, value_count, ops);
            let at = ops.len() as u32;
            labels.set(else_arm.0 as usize, at);
            let else_temps = lower_edge(else_edge, value_count, ops);
            assert(final(ops)@ =~= old(ops)@ + term_ops(terminator@, Label(old(labels)@.len() as u32), vc));
            if then_temps >= else_temps {
                then_temps
            } else {
                else_temps
            }
        },
    }
}

/// Emits the code of block `b` after whatever `ops` holds: its instructions in
/// program order, then its terminator, whose branch arm, if any, gets the next
/// label. Returns how many scratch registers the block uses.
fn lower_block(ir: &IrFunction, b: usize, ops: &mut Vec<Op>, labels: &mut Vec<u32>) -> (temps: usize)
    requires
        b < ir@.blocks.len(),
    ensures
        final(ops)@ == old(ops)@ + block_ops(ir@, b as nat, Label(old(labels)@.len() as u32)),
        temps == block_temps(ir@.blocks[b as int], ir@.value_count as nat),
        match ir@.blocks[b as int].terminator {
            Some(TermModel::Branch { then_edge, .. }) => final(labels)@ == old(labels)@.push(0u32).update(
                (old(labels)@.len() as u32) as int,
                (old(ops)@.len() + inst_ops(ir@.blocks[b as int].insts).len() + 1 + edge_ops(
                    then_edge,
                    ir@.value_count as nat,
                ).len()) as u32,
            ),
            _ => final(labels)@ == old(labels)@,
        },
{
    let ghost m = ir@;
    let block = &ir.blocks[b];
    assert(block@ == m.blocks[b as int]);
    let ghost start = old(ops)@;
    for j in 0..block.insts.len()
        invariant
            block@ == m.blocks[b as int],
            ops@ == start + inst_ops(block@.insts.take(j as int)),
    {
        let (value, inst) = block.insts[j];
        proof {
            lemma_inst_ops_step(block@.insts, j as int);
        }
        match inst {
            Some(i) => {
                ops.push(lower_inst(value, &i));
            },
            None => {},
        }
        assert(ops@ =~= start + inst_ops(block@.insts.take(j + 1)));
    }
    assert(block@.insts.take(block.insts.len() as int) =~= block@.insts);
    let temps = match &block.terminator {
        Some(t) => lower_terminator(t, ir.value_count, ops, labels),
        None => 0,
    };
    assert(final(ops)@ =~= old(ops)@ + block_ops(m, b as nat, Label(old(labels)@.len() as u32)));
    temps
}

/// Lowers a function to bytecode.
///
/// Lowering is total: it relies on no property of the function beyond the shape
/// of its representation. A block's arguments are passed as one simultaneous
/// assignment, through a scratch register past the values only where the copies
/// of an edge form a cycle; what this preserves of a function that
/// `Function::validate` accepts is stated in `semantics`.
pub fn lower(ir: &IrFunction) -> (res: Program)
    requires
        ir@.blocks.len() <= ir@.block_count,
    ensures
        res@ == lower_spec(ir@),
{
    let ghost m = ir@;
    // Label id == block index for the blocks; branches append their arm labels.
    let mut labels: Vec<u32> = vec![0u32; ir.block_count];
    let mut ops: Vec<Op> = Vec::new();
    let mut temps: usize = 0;
    assert(labels@ =~= labels_before(m, 0));
    for i in 0..ir.blocks.len()
        invariant
            m == ir@,
            m.blocks.len() <= m.block_count,
            ops@ == code_before(m, i as nat),
            labels@ == labels_before(m, i as nat),
            temps == temps_before(m, i as nat),
    {
        proof {
            lemma_labels_len(m, i as nat);
        }
        let at = ops.len() as u32;
        labels.set(i, at);
        let block_temps = lower_block(ir, i, &mut ops, &mut labels);
        if block_temps > temps {
            temps = block_temps;
        }
        assert(ops@ =~= code_before(m, (i + 1) as nat));
        assert(labels@ =~= labels_before(m, (i + 1) as nat));
    }
    let registers = (ir.value_count as u128 + temps as u128) as u32;
    Program::from_parts(ir.name.clone(), param_registers(ir), registers, ops, labels)
}

} // verus!
