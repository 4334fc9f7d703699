//! Where lowering places each block's code and what each label points at.

use crate::ir::FnModel;
use crate::lower::{
    block_code, block_start, block_temps, branches_before, code_before, else_label, else_start,
    is_branch, labels_before, lower_spec, temps_before,
};
use vstd::prelude::*;

verus! {

/// The limits of the bytecode's representation that a function must stay within
/// for its labels and op offsets to be exact: it holds every block it counts, its
/// labels can be numbered by a `u32`, and every op offset fits in a `u32`.
pub open spec fn fits(m: FnModel) -> bool {
    &&& m.blocks.len() == m.block_count
    &&& m.block_count + m.block_count <= u32::MAX
    &&& code_before(m, m.blocks.len()).len() <= u32::MAX
}

/// Every register a lowered function uses, those of its values and the scratch
/// registers its edges use, can be numbered by a `u32`.
pub open spec fn registers_fit(m: FnModel) -> bool {
    m.value_count + temps_before(m, m.blocks.len()) <= u32::MAX
}

/// No block uses more scratch registers than the first `k` blocks together, for a
/// block among them.
pub proof fn lemma_temps_bound(m: FnModel, b: nat, k: nat)
    requires
        b < k,
    ensures
        block_temps(m.blocks[b as int], m.value_count as nat) <= temps_before(m, k),
        temps_before(m, b) <= temps_before(m, k),
    decreases k,
{
    if b < k - 1 {
        lemma_temps_bound(m, b, (k - 1) as nat);
    }
}

pub proof fn lemma_code_prefix(m: FnModel, k1: nat, k2: nat)
    requires
        k1 <= k2,
    ensures
        code_before(m, k1).len() <= code_before(m, k2).len(),
        forall|x: int|
            0 <= x < code_before(m, k1).len() ==> #[trigger] code_before(m, k2)[x] == code_before(
                m,
                k1,
            )[x],
    decreases k2,
{
    if k1 < k2 {
        lemma_code_prefix(m, k1, (k2 - 1) as nat);
    }
}

/// The code of block `b` stands in the program from where block `b` starts.
pub proof fn lemma_block_at(m: FnModel, b: nat)
    requires
        b < m.blocks.len(),
    ensures
        block_start(m, b) + block_code(m, b).len() <= lower_spec(m).ops.len(),
        forall|x: int|
            0 <= x < block_code(m, b).len() ==> lower_spec(m).ops[block_start(m, b) + x]
                == #[trigger] block_code(m, b)[x],
{
    lemma_code_prefix(m, b + 1, m.blocks.len());
    assert forall|x: int| 0 <= x < block_code(m, b).len() implies lower_spec(m).ops[block_start(
        m,
        b,
    ) + x] == #[trigger] block_code(m, b)[x] by {
        assert(code_before(m, b + 1)[block_start(m, b) + x] == block_code(m, b)[x]);
    }
}

/// Block starts increase with the block index.
pub proof fn lemma_start_monotone(m: FnModel, b1: nat, b2: nat)
    requires
        b1 <= b2,
    ensures
        block_start(m, b1) <= block_start(m, b2),
{
    lemma_code_prefix(m, b1, b2);
}

pub proof fn lemma_branches_monotone(m: FnModel, k1: nat, k2: nat)
    requires
        k1 <= k2,
    ensures
        branches_before(m, k1) <= branches_before(m, k2),
        branches_before(m, k2) <= branches_before(m, k1) + (k2 - k1),
    decreases k2,
{
    if k1 < k2 {
        lemma_branches_monotone(m, k1, (k2 - 1) as nat);
    }
}

pub proof fn lemma_branch_count_step(m: FnModel, b: nat)
    requires
        is_branch(m.blocks[b as int]),
    ensures
        branches_before(m, b + 1) == branches_before(m, b) + 1,
{
}

/// What the labels hold once the first `k` blocks are laid out: each of those
/// blocks' label its start, and each of their branches' arm label where the arm
/// begins.
proof fn lemma_labels_upto(m: FnModel, k: nat)
    requires
        k <= m.blocks.len(),
        fits(m),
    ensures
        labels_before(m, k).len() == m.block_count + branches_before(m, k),
        forall|b: nat| b < k ==> #[trigger] labels_before(m, k)[b as int] == block_start(m, b) as u32,
        forall|b: nat|
            b < k && is_branch(m.blocks[b as int]) ==> #[trigger] labels_before(m, k)[m.block_count
                + branches_before(m, b)] == else_start(m, b) as u32,
    decreases k,
{
    if k > 0 {
        let p = (k - 1) as nat;
        lemma_labels_upto(m, p);
        lemma_branches_monotone(m, 0, p);
        let set = labels_before(m, p).update(p as int, block_start(m, p) as u32);
        if is_branch(m.blocks[p as int]) {
            assert(else_label(m, p).0 as int == m.block_count + branches_before(m, p));
        }
        assert forall|b: nat|
            b < k && is_branch(m.blocks[b as int]) implies #[trigger] labels_before(m, k)[m.block_count
            + branches_before(m, b)] == else_start(m, b) as u32 by {
            if b < p {
                lemma_branches_monotone(m, 0, b);
                lemma_branches_monotone(m, b + 1, p);
                lemma_branch_count_step(m, b);
            }
        }
    }
}

/// Once every block is laid out, each block's label holds its start, and the arm
/// label of each branch holds where its second arm begins.
pub proof fn lemma_labels(m: FnModel)
    requires
        fits(m),
    ensures
        lower_spec(m).labels.len() == m.block_count + branches_before(m, m.blocks.len()),
        forall|b: nat|
            b < m.blocks.len() ==> #[trigger] lower_spec(m).labels[b as int] == block_start(m, b) as u32,
        forall|b: nat|
            b < m.blocks.len() && is_branch(m.blocks[b as int]) ==> lower_spec(m).labels[m.block_count
                + branches_before(m, b)] == #[trigger] else_start(m, b) as u32,
        forall|b: nat|
            b < m.blocks.len() ==> #[trigger] else_label(m, b).0 as int == m.block_count
                + branches_before(m, b),
{
    lemma_labels_upto(m, m.blocks.len());
    assert forall|b: nat| b < m.blocks.len() implies #[trigger] else_label(m, b).0 as int
        == m.block_count + branches_before(m, b) by {
        lemma_branches_monotone(m, 0, b);
    }
}

} // verus!
