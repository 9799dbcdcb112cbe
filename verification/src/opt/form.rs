//! The passes keep SSA form: no register comes to be defined twice.

use vstd::prelude::*;

use super::dead::{
    elimination_keeps_well_formed, elimination_runs_out, instructions, staying, stays,
    without_dead,
};
use super::facts::{analysed, rounds_settle, transferred};
use super::meaning::{rewriting_knows_the_same, rewritten_at};
use super::optimise::{fully_propagated, fully_without_dead, optimised};
use super::rewrite::{
    known_replaced, propagated, propagation_changes, propagation_runs_out, pruning_keeps_arities,
    replacing_keeps_well_formed, rewritten_block, weight,
};
use super::runs::rewritten_keeps_kind;
use crate::ir::block::{renumbered, BlockView};
use crate::ir::func::{position_taken, pruning_keeps_well_formed, well_formed, FunctionView};
use crate::ir::instr::InstrView;
use crate::ir::ssa::form::{arities_agree, defined_once, definitions, results};

verus! {

/// Instructions that write the same registers define the same.
proof fn same_results(a: Seq<InstrView>, b: Seq<InstrView>, n: int)
    requires
        0 <= n <= a.len(),
        n <= b.len(),
        forall|k: int| 0 <= k < n ==> (#[trigger] a[k]).written() == b[k].written(),
    ensures
        results(a, n) == results(b, n),
    decreases n,
{
    if n > 0 {
        same_results(a, b, n - 1);
        assert(a[n - 1].written() == b[n - 1].written());
    }
}

/// A block that is left by propagation defines what the block it was does.
proof fn propagated_defines(function: FunctionView, b: int) -> (at: int)
    requires
        well_formed(function),
        0 <= b < propagated(function).blocks.len(),
    ensures
        0 <= at < function.blocks.len(),
        definitions(propagated(function).blocks[b]) == definitions(function.blocks[at]),
        crate::graph::raised_before(
            crate::ir::block::reached_flags(known_replaced(function).blocks),
            at,
        ) == b,
{
    let blocks = function.blocks;
    let middle = known_replaced(function).blocks;
    let after = propagated(function).blocks;
    let entries = analysed(function).entries;
    let at = position_taken(middle, middle.len() as int, b);
    assert(after[b] == renumbered(middle, at));
    assert(middle[at] == rewritten_block(blocks[at], entries[at]));
    let instrs = blocks[at].instrs;
    let count = instrs.len() as int;
    rewriting_knows_the_same(entries[at], instrs, count);
    assert forall|k: int| 0 <= k < count implies (#[trigger] after[b].instrs[k]).written()
        == instrs[k].written() by {
        rewritten_at(entries[at], instrs, count, k);
        rewritten_keeps_kind(instrs[k], transferred(entries[at], instrs, k));
    }
    same_results(after[b].instrs, instrs, count);
    at
}

proof fn propagating_keeps_one_definition(function: FunctionView)
    requires
        well_formed(function),
        defined_once(function.blocks),
    ensures
        defined_once(propagated(function).blocks),
{
    let blocks = function.blocks;
    let after = propagated(function).blocks;
    assert forall|a: int, i: int, b: int, j: int|
        #![trigger definitions(after[a])[i], definitions(after[b])[j]]
        0 <= a < after.len() && 0 <= i < definitions(after[a]).len() && 0 <= b < after.len() && 0
            <= j < definitions(after[b]).len() && definitions(after[a])[i] == definitions(
            after[b],
        )[j] implies a == b && i == j by {
        let x = propagated_defines(function, a);
        let y = propagated_defines(function, b);
        assert(definitions(blocks[x])[i] == definitions(blocks[y])[j]);
    }
}

/// What is still defined was defined.
proof fn result_was_there(blocks: Seq<BlockView>, instrs: Seq<InstrView>, n: int, i: int) -> (at:
    int)
    requires
        0 <= n <= instrs.len(),
        0 <= i < results(
            staying(blocks, instrs, n),
            staying(blocks, instrs, n).len() as int,
        ).len(),
    ensures
        0 <= at < results(instrs, n).len(),
        results(instrs, n)[at] == results(
            staying(blocks, instrs, n),
            staying(blocks, instrs, n).len() as int,
        )[i],
    decreases n,
{
    let left = staying(blocks, instrs, n);
    let before = staying(blocks, instrs, n - 1);
    let m = before.len() as int;
    if stays(blocks, instrs[n - 1]) {
        same_results(left, before, m);
        if i < results(before, m).len() {
            result_was_there(blocks, instrs, n - 1, i)
        } else {
            results(instrs, n).len() - 1
        }
    } else {
        result_was_there(blocks, instrs, n - 1, i)
    }
}

/// What is still defined is in the order it was in.
proof fn results_in_order(
    blocks: Seq<BlockView>,
    instrs: Seq<InstrView>,
    n: int,
    i: int,
    j: int,
) -> (at: (int, int))
    requires
        0 <= n <= instrs.len(),
        0 <= i < j < results(
            staying(blocks, instrs, n),
            staying(blocks, instrs, n).len() as int,
        ).len(),
    ensures
        ({
            let left = staying(blocks, instrs, n);
            let now = results(left, left.len() as int);
            &&& 0 <= at.0 < at.1 < results(instrs, n).len()
            &&& results(instrs, n)[at.0] == now[i]
            &&& results(instrs, n)[at.1] == now[j]
        }),
    decreases n,
{
    let left = staying(blocks, instrs, n);
    let before = staying(blocks, instrs, n - 1);
    let m = before.len() as int;
    if stays(blocks, instrs[n - 1]) {
        same_results(left, before, m);
        if j < results(before, m).len() {
            results_in_order(blocks, instrs, n - 1, i, j)
        } else {
            let p = result_was_there(blocks, instrs, n - 1, i);
            (p, results(instrs, n).len() - 1)
        }
    } else {
        results_in_order(blocks, instrs, n - 1, i, j)
    }
}

proof fn definition_was_there(blocks: Seq<BlockView>, block: BlockView, i: int) -> (at: int)
    requires
        0 <= i < definitions(super::dead::block_without_dead(blocks, block)).len(),
    ensures
        0 <= at < definitions(block).len(),
        definitions(block)[at] == definitions(super::dead::block_without_dead(blocks, block))[i],
        (i < block.params.len()) == (at < block.params.len()),
        i < block.params.len() ==> at == i,
{
    let count = block.params.len() as int;
    if i < count {
        i
    } else {
        count + result_was_there(blocks, block.instrs, block.instrs.len() as int, i - count)
    }
}

proof fn elimination_keeps_one_definition(function: FunctionView)
    requires
        defined_once(function.blocks),
    ensures
        defined_once(without_dead(function).blocks),
{
    let blocks = function.blocks;
    let after = without_dead(function).blocks;
    assert forall|a: int, i: int, b: int, j: int|
        #![trigger definitions(after[a])[i], definitions(after[b])[j]]
        0 <= a < after.len() && 0 <= i < definitions(after[a]).len() && 0 <= b < after.len() && 0
            <= j < definitions(after[b]).len() && definitions(after[a])[i] == definitions(
            after[b],
        )[j] implies a == b && i == j by {
        let p = definition_was_there(blocks, blocks[a], i);
        let q = definition_was_there(blocks, blocks[b], j);
        assert(definitions(blocks[a])[p] == definitions(blocks[b])[q]);
        assert(a == b && p == q);
        let params = blocks[a].params.len() as int;
        let instrs = blocks[a].instrs;
        let n = instrs.len() as int;
        if i >= params && i != j {
            let (first, second) = if i < j {
                (i - params, j - params)
            } else {
                (j - params, i - params)
            };
            let (x, y) = results_in_order(blocks, instrs, n, first, second);
            assert(definitions(blocks[a])[params + x] == definitions(blocks[a])[params + y]);
        }
    }
}

proof fn propagation_keeps_form(function: FunctionView)
    requires
        well_formed(function),
        arities_agree(function.blocks),
        defined_once(function.blocks),
    ensures
        well_formed(fully_propagated(function)),
        arities_agree(fully_propagated(function).blocks),
        defined_once(fully_propagated(function).blocks),
    decreases weight(function.blocks),
{
    let middle = known_replaced(function);
    rounds_settle(function);
    replacing_keeps_well_formed(function);
    pruning_keeps_well_formed(middle);
    pruning_keeps_arities(middle);
    propagating_keeps_one_definition(function);
    if propagation_changes(function) {
        propagation_runs_out(function);
        propagation_keeps_form(propagated(function));
    }
}

proof fn elimination_keeps_form(function: FunctionView)
    requires
        well_formed(function),
        arities_agree(function.blocks),
        defined_once(function.blocks),
    ensures
        well_formed(fully_without_dead(function)),
        arities_agree(fully_without_dead(function).blocks),
        defined_once(fully_without_dead(function).blocks),
    decreases instructions(function.blocks),
{
    elimination_keeps_well_formed(function);
    elimination_keeps_one_definition(function);
    if without_dead(function).blocks != function.blocks {
        elimination_runs_out(function);
        elimination_keeps_form(without_dead(function));
    }
}

/// **The passes keep SSA form.** What was written once is written once at most,
/// every edge still hands its block one value for each of its parameters, and
/// everything named exists.
pub proof fn optimising_keeps_ssa_form(function: FunctionView)
    requires
        well_formed(function),
        arities_agree(function.blocks),
        defined_once(function.blocks),
    ensures
        well_formed(optimised(function)),
        arities_agree(optimised(function).blocks),
        defined_once(optimised(function).blocks),
{
    propagation_keeps_form(function);
    elimination_keeps_form(fully_propagated(function));
}

} // verus!
