//! The one rule, over whole runs: what the passes leave does what was there.
//!
//! What a run does is what is written down of it: every store, every call and
//! everything printed. A pass may change how a function gets there and not what
//! is written down.

use vstd::prelude::*;

use super::dead::{
    elimination_keeps_well_formed, elimination_runs_out, is_read, staying, stays, without_dead,
};
use super::facts::{analysed, rounds_settle};
use super::meaning::{
    does_the_same, enters, is_param, is_run, params_apart, rewriting_keeps_what_is_done,
    rewriting_knows_the_same,
};
use super::optimise::{fully_propagated, fully_without_dead, optimised};
use super::rewrite::{
    known_replaced, propagated, propagation_changes, propagation_runs_out,
    replacing_keeps_well_formed, rewritten_block, rewritten_instr, substituted, weight,
};
use crate::graph::{raised_before, reaches_further, reaches_itself};
use crate::ir::block::{
    flow, pruned, pruned_position, reached, reached_flags, renumbered, renumbered_target,
    BlockView, TargetView, TermView,
};
use crate::ir::deeds::{
    asks_both, asks_no_more, asks_one_more, asks_the_same, deed, deeds, does_as, does_as_through,
    is_deed, run_answer, run_deeds, same_deeds, same_run_deeds, visit_deeds, words,
};
use crate::ir::func::{
    block_within, position_taken, pruning_keeps_well_formed, successor_kept, well_formed,
    FunctionView,
};
use crate::ir::halt::{goes_through, lengths_kept};
use crate::ir::instr::{instr_within, InstrView};
use crate::ir::liveness::reads_at;
use crate::ir::run::{
    all_written, answers, goes, goes_to, handed_over, held_by, is_execution, may_write,
    nothing_held, steps, visits, walks, Held, Visit,
};
use crate::ir::ssa::form::{arities_agree, defined_once, definitions, results};
use crate::ir::ssa::leaving::{shorter_execution, state_lengths};
use crate::ir::value::{value_within, VReg, Value};

verus! {

/// Whether a run of one function does what a run of another does, block for
/// block.
pub open spec fn in_step(
    function: FunctionView,
    run: Seq<Visit>,
    after: FunctionView,
    other: Seq<Visit>,
) -> bool {
    &&& does_as(function, run, after, other)
    &&& other.len() == run.len()
}

// -- rewriting --------------------------------------------------------------

/// Handing over leaves what is not a parameter.
pub proof fn handing_leaves(params: Seq<VReg>, args: Seq<Value>, held: Held, n: int)
    requires
        0 <= n <= params.len(),
        held.len() <= u32::MAX,
        forall|i: int| 0 <= i < params.len() ==> (#[trigger] params[i]).0 < held.len(),
    ensures
        handed_over(params, args, held, n).len() == held.len(),
        forall|r: int|
            0 <= r < held.len() && !params.contains(VReg(r as u32)) ==> #[trigger] handed_over(
                params,
                args,
                held,
                n,
            )[r] == held[r],
    decreases n,
{
    if n > 0 {
        handing_leaves(params, args, held, n - 1);
        assert(params[n - 1].0 < held.len());
        assert forall|r: int|
            0 <= r < held.len() && !params.contains(VReg(r as u32)) implies #[trigger] handed_over(
            params,
            args,
            held,
            n,
        )[r] == held[r] by {
            if params[n - 1].0 == r {
                assert(params[n - 1] == VReg(r as u32));
            }
        }
    }
}

/// Where a function goes is one of its successors.
pub proof fn goes_along_an_edge(blocks: Seq<BlockView>, b: int, held: Held)
    requires
        0 <= b < blocks.len(),
        goes_to(blocks[b].term, held) is Some,
    ensures
        ({
            let target = goes_to(blocks[b].term, held)->0;
            &&& blocks[b].term.targets().contains(target)
            &&& flow(blocks)[b].contains(target.block.0 as int)
        }),
{
    let term = blocks[b].term;
    let target = goes_to(term, held)->0;
    let i: int = match term {
        TermView::Branch { then_blk, .. } => if target == then_blk {
            0
        } else {
            1
        },
        _ => 0,
    };
    assert(term.targets()[i] == target);
    assert(term.successors()[i] == target.block);
    assert(flow(blocks)[b][i] == target.block.0 as int);
}

/// How a function goes is a way it may go.
pub proof fn execution_is_run(function: FunctionView, run: Seq<Visit>)
    requires
        well_formed(function),
        is_execution(function, run),
    ensures
        is_run(function, run),
{
    let blocks = function.blocks;
    assert forall|i: int|
        #![trigger run[i]]
        0 < i < run.len() implies enters(
        blocks,
        run[i - 1].block,
        run[i - 1].states.last(),
        run[i].block,
        run[i].states[0],
    ) by {
        let from = run[i - 1];
        let to = run[i];
        assert(visits(function, run[i - 1]) && visits(function, run[i]));
        let leaving = from.states.last();
        assert(goes(blocks, from.block, leaving, to.block, to.states[0]));
        goes_along_an_edge(blocks, from.block, leaving);
        state_lengths(function, from, from.states.len() - 1);
        let target = goes_to(blocks[from.block].term, leaving)->0;
        let params = blocks[to.block].params;
        assert(block_within(blocks[to.block], function.names.len(), blocks.len()));
        handing_leaves(params, target.args, leaving, params.len() as int);
    }
}

/// Giving an instruction operands twice gives it the second.
#[verifier::spinoff_prover]
pub proof fn operands_twice(instr: InstrView, a: Seq<Value>, b: Seq<Value>)
    requires
        a.len() == instr.operands().len(),
        b.len() == a.len(),
    ensures
        instr.with_operands(a).with_operands(b) == instr.with_operands(b),
        instr.with_operands(a).written() == instr.written(),
        instr.with_operands(a).calls() == instr.calls(),
        is_deed(instr.with_operands(a)) == is_deed(instr),
{
}

/// Whether operands that were written down still are.
pub open spec fn stays_known(before: InstrView, after: InstrView) -> bool {
    after.operands().len() == before.operands().len() ==> forall|i: int|
        0 <= i < before.operands().len() && (#[trigger] before.operands()[i]) is Const
            ==> after.operands()[i] is Const
}

/// What a rewritten instruction goes through is what the one it stands for goes
/// through, and it does the same.
#[verifier::spinoff_prover]
#[verifier::rlimit(40)]
pub proof fn rewritten_step(before: InstrView, after: InstrView, held: Held, next: Held)
    requires
        steps(before, held, next),
        does_the_same(before, after, held),
        stays_known(before, after),
        after.written() == before.written(),
    ensures
        steps(after, held, next),
        is_deed(after) == is_deed(before),
        is_deed(before) ==> deed(after, held, next) == deed(before, held, next),
{
    let operands = before.operands();
    let others = after.operands();
    if after == before.with_operands(others) && others.len() == operands.len() && (forall|i: int|
        0 <= i < operands.len() ==> held_by(#[trigger] others[i], held) == held_by(
            operands[i],
            held,
        )) {
        assert(all_written(others, held)) by {
            assert forall|i: int| 0 <= i < others.len() implies held_by(
                #[trigger] others[i],
                held,
            ) is Some by {
                assert(held_by(operands[i], held) is Some);
            }
        }
        assert(words(others, held) =~= words(operands, held));
        operands_twice(before, others, words(operands, held));
        if let Some(dst) = before.written() {
            let word = next[dst.0 as int]->0;
            assert(may_write(after, held, word)) by {
                match before {
                    InstrView::Copy { .. } => {
                        assert(held_by(others[0], held) == held_by(operands[0], held));
                    },
                    InstrView::Bin { .. } => {
                        assert(held_by(others[0], held) == held_by(operands[0], held));
                        assert(held_by(others[1], held) == held_by(operands[1], held));
                    },
                    InstrView::Cmp { .. } => {
                        assert(held_by(others[0], held) == held_by(operands[0], held));
                        assert(held_by(others[1], held) == held_by(operands[1], held));
                    },
                    InstrView::Elem { .. } => {
                        assert(held_by(others[1], held) == held_by(operands[1], held));
                        assert(held_by(others[2], held) == held_by(operands[2], held));
                    },
                    _ => {},
                }
            }
        }
    } else {
        assert(after is Const);
        assert(after.operands() =~= seq![]);
        let dst = before.written()->0;
        assert(may_write(before, held, next[dst.0 as int]->0));
        // What may answer anything does not become the one answer it may give.
        if is_deed(before) {
            assert(may_write(before, held, 0) && may_write(before, held, 1));
        }
    }
}

pub proof fn rewritten_keeps_kind(instr: InstrView, facts: super::facts::Facts)
    ensures
        rewritten_instr(instr, facts).0.written() == instr.written(),
        stays_known(instr, rewritten_instr(instr, facts).0),
        instr.calls() || instr.written() is None ==> rewritten_instr(instr, facts).0
            == substituted(instr, facts),
        rewritten_instr(instr, facts).0 == substituted(instr, facts) ==> rewritten_instr(
            instr,
            facts,
        ).0 == instr.with_operands(rewritten_instr(instr, facts).0.operands()) && rewritten_instr(
            instr,
            facts,
        ).0.operands().len() == instr.operands().len(),
{
    let operands = super::rewrite::folded_operands(instr, facts);
    assert(substituted(instr, facts).operands() =~= operands);
}

/// Where control goes from a block, it goes with what is known put in place.
pub proof fn replaced_edge(
    function: FunctionView,
    run: Seq<Visit>,
    i: int,
    to: int,
    entering: Held,
)
    requires
        well_formed(function),
        params_apart(function.blocks),
        is_run(function, run),
        0 <= i < run.len(),
        0 <= to < function.blocks.len(),
        goes(function.blocks, run[i].block, run[i].states.last(), to, entering),
    ensures
        goes(known_replaced(function).blocks, run[i].block, run[i].states.last(), to, entering),
{
    let after = known_replaced(function);
    let blocks = function.blocks;
    let entries = analysed(function).entries;
    let from = run[i];
    assert(visits(function, run[i]));
    let n = blocks[from.block].instrs.len() as int;
    assert(from.states[n] == from.states.last());
    assert(all_written(blocks[from.block].term.head(), from.states[n])) by {
        match blocks[from.block].term {
            TermView::Branch { cond, .. } => {},
            _ => {},
        }
    }
    rounds_settle(function);
    rewriting_keeps_what_is_done(function, run, i, n);
    assert(after.blocks[from.block] == rewritten_block(blocks[from.block], entries[from.block]));
    assert(after.blocks[to] == rewritten_block(blocks[to], entries[to]));
}

/// How a function goes, it goes with what is known put in place.
pub proof fn through_replacing(function: FunctionView, run: Seq<Visit>)
    requires
        well_formed(function),
        params_apart(function.blocks),
        is_execution(function, run),
    ensures
        is_execution(known_replaced(function), run),
        forall|i: int|
            0 <= i < run.len() ==> visit_deeds(known_replaced(function), #[trigger] run[i])
                == visit_deeds(function, run[i]),
        run_answer(function, run) is Some ==> run_answer(known_replaced(function), run)
            == run_answer(function, run),
{
    let after = known_replaced(function);
    let blocks = function.blocks;
    let entries = analysed(function).entries;
    execution_is_run(function, run);
    rounds_settle(function);
    assert forall|i: int| 0 <= i < run.len() implies visits(after, #[trigger] run[i])
        && visit_deeds(after, run[i]) == visit_deeds(function, run[i]) by {
        replaced_visit(function, run, i);
    }
    assert forall|i: int|
        #![trigger run[i]]
        0 < i < run.len() implies goes(
        after.blocks,
        run[i - 1].block,
        run[i - 1].states.last(),
        run[i].block,
        run[i].states[0],
    ) by {
        assert(visits(function, run[i]));
        assert(goes(
            blocks,
            run[i - 1].block,
            run[i - 1].states.last(),
            run[i].block,
            run[i].states[0],
        ));
        replaced_edge(function, run, i - 1, run[i].block, run[i].states[0]);
    }
    if run_answer(function, run) is Some {
        let i = run.len() - 1;
        let last = run[i];
        assert(visits(function, run[i]));
        let n = blocks[last.block].instrs.len() as int;
        assert(last.states[n] == last.states.last());
        let term = blocks[last.block].term;
        assert(after.blocks[last.block] == rewritten_block(blocks[last.block], entries[last.block]));
        rewriting_keeps_what_is_done(function, run, i, n);
        let now = after.blocks[last.block].term;
        assert(all_written(now.head(), last.states.last())) by {
            if let TermView::Return(Some(value)) = term {
                assert(term.head()[0] == value);
                assert(answers(now, last.states.last()) is Some);
            }
        }
    }
}

/// A visit to a block with what is known put in place.
proof fn replaced_visit(function: FunctionView, run: Seq<Visit>, i: int)
    requires
        well_formed(function),
        params_apart(function.blocks),
        is_run(function, run),
        0 <= i < run.len(),
    ensures
        visits(known_replaced(function), run[i]),
        visit_deeds(known_replaced(function), run[i]) == visit_deeds(function, run[i]),
{
    let after = known_replaced(function);
    let blocks = function.blocks;
    let b = run[i].block;
    let entries = analysed(function).entries;
    assert(visits(function, run[i]));
    let block = blocks[b];
    let n = block.instrs.len() as int;
    rewriting_knows_the_same(entries[b], block.instrs, n);
    assert(after.blocks[b] == rewritten_block(block, entries[b]));
    let instrs = after.blocks[b].instrs;
    assert forall|k: int| 0 <= k < n implies #[trigger] steps(
        instrs[k],
        run[i].states[k],
        run[i].states[k + 1],
    ) && is_deed(instrs[k]) == is_deed(block.instrs[k]) && (is_deed(block.instrs[k]) ==> deed(
        instrs[k],
        run[i].states[k],
        run[i].states[k + 1],
    ) == deed(block.instrs[k], run[i].states[k], run[i].states[k + 1])) by {
        assert(steps(block.instrs[k], run[i].states[k], run[i].states[k + 1]));
        rewriting_keeps_what_is_done(function, run, i, k);
        super::meaning::rewritten_at(entries[b], block.instrs, n, k);
        let facts = super::facts::transferred(entries[b], block.instrs, k);
        rewritten_keeps_kind(block.instrs[k], facts);
        rewritten_step(block.instrs[k], instrs[k], run[i].states[k], run[i].states[k + 1]);
    }
    assert(walks(instrs, run[i].states, n));
    assert forall|k: int| 0 <= k < n implies is_deed(#[trigger] instrs[k]) == is_deed(
        block.instrs[k],
    ) && (is_deed(block.instrs[k]) ==> deed(
        instrs[k],
        run[i].states[k],
        run[i].states[k + 1],
    ) == deed(block.instrs[k], run[i].states[k], run[i].states[k + 1])) by {
        assert(steps(instrs[k], run[i].states[k], run[i].states[k + 1]));
    }
    same_deeds(block.instrs, run[i].states, instrs, run[i].states, n);
}

// -- pruning ----------------------------------------------------------------

/// A visit where its block ends up.
pub open spec fn moved(function: FunctionView, visit: Visit) -> Visit {
    Visit {
        block: raised_before(reached_flags(function.blocks), visit.block) as int,
        states: visit.states,
    }
}

/// Every block a run goes through is one control can get to.
pub proof fn run_is_reached(function: FunctionView, run: Seq<Visit>, i: int)
    requires
        well_formed(function),
        is_execution(function, run),
        0 <= i < run.len(),
    ensures
        reached(function.blocks, run[i].block),
    decreases i,
{
    let graph = flow(function.blocks);
    assert(visits(function, run[i]));
    if i == 0 {
        reaches_itself(graph, 0);
    } else {
        run_is_reached(function, run, i - 1);
        let from = run[i - 1];
        assert(visits(function, run[i - 1]));
        assert(goes(
            function.blocks,
            run[i - 1].block,
            run[i - 1].states.last(),
            run[i].block,
            run[i].states[0],
        ));
        goes_along_an_edge(function.blocks, from.block, from.states.last());
        reaches_further(graph, 0, from.block, run[i].block);
    }
}

/// Where control goes from a block it gets to, it goes without the blocks nothing
/// gets to.
pub proof fn pruned_edge(
    function: FunctionView,
    from: int,
    leaving: Held,
    to: int,
    entering: Held,
)
    requires
        well_formed(function),
        0 <= from < function.blocks.len(),
        0 <= to < function.blocks.len(),
        reached(function.blocks, from),
        goes(function.blocks, from, leaving, to, entering),
    ensures
        reached(function.blocks, to),
        goes(
            pruned(function.blocks),
            raised_before(reached_flags(function.blocks), from) as int,
            leaving,
            raised_before(reached_flags(function.blocks), to) as int,
            entering,
        ),
{
    let blocks = function.blocks;
    let n = blocks.len() as int;
    let flags = reached_flags(blocks);
    let term = blocks[from].term;
    let target = goes_to(term, leaving)->0;
    pruning_keeps_well_formed(function);
    goes_along_an_edge(blocks, from, leaving);
    reaches_further(flow(blocks), 0, from, to);
    pruned_position(blocks, n, from);
    pruned_position(blocks, n, to);
    let k = choose|k: int| 0 <= k < term.targets().len() && term.targets()[k] == target;
    successor_kept(blocks, from, k);
    let new_targets = term.targets().map_values(
        |target: TargetView| renumbered_target(target, flags),
    );
    let new_term = pruned(blocks)[raised_before(flags, from) as int].term;
    assert(new_term == term.with_targets(new_targets));
    assert(goes_to(new_term, leaving) == Some(renumbered_target(target, flags))) by {
        match term {
            TermView::Jump(to) => {
                assert(term.targets()[0] == to);
                assert(new_targets[0] == renumbered_target(to, flags));
            },
            TermView::Branch { then_blk, else_blk, .. } => {
                assert(term.targets()[0] == then_blk && term.targets()[1] == else_blk);
                assert(new_targets[0] == renumbered_target(then_blk, flags));
                assert(new_targets[1] == renumbered_target(else_blk, flags));
            },
            TermView::Return(_) => {},
        }
    }
}

/// How a function goes, it goes without the blocks nothing gets to.
pub proof fn through_pruning(function: FunctionView, run: Seq<Visit>) -> (other: Seq<Visit>)
    requires
        well_formed(function),
        is_execution(function, run),
    ensures
        in_step(
            function,
            run,
            FunctionView { blocks: pruned(function.blocks), ..function },
            other,
        ),
        other.last() == moved(function, run.last()),
{
    let blocks = function.blocks;
    let n = blocks.len() as int;
    let after = FunctionView { blocks: pruned(blocks), ..function };
    let flags = reached_flags(blocks);
    let other = Seq::new(run.len(), |i: int| moved(function, run[i]));
    pruning_keeps_well_formed(function);
    assert forall|i: int| 0 <= i < run.len() implies {
        let b = (#[trigger] run[i]).block;
        let to = raised_before(flags, b) as int;
        &&& 0 <= b < n
        &&& 0 <= to < after.blocks.len()
        &&& after.blocks[to] == renumbered(blocks, b)
        &&& reached(blocks, b)
    } by {
        assert(visits(function, run[i]));
        run_is_reached(function, run, i);
        pruned_position(blocks, n, run[i].block);
    }
    assert forall|i: int| 0 <= i < other.len() implies visits(after, #[trigger] other[i])
        && visit_deeds(after, other[i]) == visit_deeds(function, run[i]) by {
        assert(visits(function, run[i]));
        assert(other[i] == moved(function, run[i]));
        assert(after.blocks[other[i].block].instrs == blocks[run[i].block].instrs);
    }
    assert(raised_before(flags, 0) == 0);
    assert(run[0].block == 0);
    assert forall|i: int|
        #![trigger other[i]]
        0 < i < other.len() implies goes(
        after.blocks,
        other[i - 1].block,
        other[i - 1].states.last(),
        other[i].block,
        other[i].states[0],
    ) by {
        assert(run[i] == run[i] && other[i - 1] == moved(function, run[i - 1]));
        assert(goes(
            blocks,
            run[i - 1].block,
            run[i - 1].states.last(),
            run[i].block,
            run[i].states[0],
        ));
        pruned_edge(
            function,
            run[i - 1].block,
            run[i - 1].states.last(),
            run[i].block,
            run[i].states[0],
        );
    }
    assert forall|i: int| 0 <= i < run.len() implies visit_deeds(after, other[i]) == visit_deeds(
        function,
        #[trigger] run[i],
    ) by {
        assert(visits(after, other[i]));
    }
    same_run_deeds(function, run, after, other);
    asks_the_same(run_deeds(function, run));
    let last = run[run.len() - 1];
    assert(other.last() == moved(function, last));
    assert(after.blocks[other.last().block].term is Return ==> after.blocks[other.last().block].term
        == blocks[last.block].term);
    other
}

// -- dropping what nothing reads --------------------------------------------

/// Whether every register anything reads holds the same.
pub open spec fn read_the_same(blocks: Seq<BlockView>, held: Held, other: Held) -> bool {
    &&& other.len() == held.len()
    &&& forall|r: int|
        0 <= r < held.len() && is_read(blocks, VReg(r as u32)) ==> #[trigger] other[r] == held[r]
}

/// What a step of a block reads is worth the same.
pub proof fn read_values_same(
    blocks: Seq<BlockView>,
    b: int,
    k: int,
    values: Seq<Value>,
    held: Held,
    other: Held,
)
    requires
        0 <= b < blocks.len(),
        0 <= k <= blocks[b].instrs.len(),
        read_the_same(blocks, held, other),
        held.len() <= u32::MAX,
        forall|i: int| 0 <= i < values.len() ==> value_within(#[trigger] values[i], held.len()),
        forall|reg: VReg| #[trigger]
            values.contains(Value::Reg(reg)) ==> reads_at(blocks[b], k, reg),
    ensures
        forall|i: int|
            0 <= i < values.len() ==> held_by(#[trigger] values[i], other) == held_by(
                values[i],
                held,
            ),
{
    assert forall|i: int| 0 <= i < values.len() implies held_by(#[trigger] values[i], other)
        == held_by(values[i], held) by {
        if let Value::Reg(reg) = values[i] {
            let r = reg.0 as int;
            assert(reg == VReg(r as u32));
            assert(value_within(values[i], held.len()));
            assert(values.contains(Value::Reg(reg)));
            assert(reads_at(blocks[b], k, reg));
            assert(is_read(blocks, VReg(r as u32)));
        }
    }
}

/// One step that stays.
#[verifier::spinoff_prover]
proof fn kept_step(
    blocks: Seq<BlockView>,
    b: int,
    k: int,
    held: Held,
    next: Held,
    other: Held,
) -> (other_next: Held)
    requires
        0 <= b < blocks.len(),
        0 <= k < blocks[b].instrs.len(),
        held.len() <= u32::MAX,
        instr_within(blocks[b].instrs[k], held.len()),
        read_the_same(blocks, held, other),
        steps(blocks[b].instrs[k], held, next),
    ensures
        steps(blocks[b].instrs[k], other, other_next),
        read_the_same(blocks, next, other_next),
        is_deed(blocks[b].instrs[k]) ==> deed(blocks[b].instrs[k], other, other_next) == deed(
            blocks[b].instrs[k],
            held,
            next,
        ),
{
    let instr = blocks[b].instrs[k];
    let operands = instr.operands();
    read_values_same(blocks, b, k, operands, held, other);
    assert(all_written(operands, other)) by {
        assert forall|i: int| 0 <= i < operands.len() implies held_by(
            #[trigger] operands[i],
            other,
        ) is Some by {
            assert(held_by(operands[i], held) is Some);
        }
    }
    assert(words(operands, other) =~= words(operands, held));
    match instr.written() {
        Some(dst) => {
            let word = next[dst.0 as int];
            let other_next = other.update(dst.0 as int, word);
            assert(may_write(instr, other, word->0)) by {
                match instr {
                    InstrView::Copy { .. } => {
                        assert(held_by(operands[0], other) == held_by(operands[0], held));
                    },
                    InstrView::Bin { .. } => {
                        assert(held_by(operands[0], other) == held_by(operands[0], held));
                        assert(held_by(operands[1], other) == held_by(operands[1], held));
                    },
                    InstrView::Cmp { .. } => {
                        assert(held_by(operands[0], other) == held_by(operands[0], held));
                        assert(held_by(operands[1], other) == held_by(operands[1], held));
                    },
                    InstrView::Elem { .. } => {
                        assert(held_by(operands[1], other) == held_by(operands[1], held));
                        assert(held_by(operands[2], other) == held_by(operands[2], held));
                    },
                    _ => {},
                }
            }
            other_next
        },
        None => other,
    }
}

/// The first `n` steps of a block, without those that do not stay.
pub proof fn thin_steps(
    function: FunctionView,
    visit: Visit,
    other: Held,
    n: int,
) -> (others: Seq<Held>)
    requires
        well_formed(function),
        goes_through(function, visit, n),
        read_the_same(function.blocks, visit.states[0], other),
    ensures
        ({
            let blocks = function.blocks;
            let instrs = blocks[visit.block].instrs;
            let left = staying(blocks, instrs, n);
            &&& others.len() == left.len() + 1
            &&& others[0] == other
            &&& forall|k: int|
                0 <= k < left.len() ==> #[trigger] steps(left[k], others[k], others[k + 1])
            &&& read_the_same(blocks, visit.states[n], others.last())
            &&& asks_no_more(
                deeds(instrs, visit.states, n),
                deeds(left, others, left.len() as int),
            )
        }),
    decreases n,
{
    let blocks = function.blocks;
    let b = visit.block;
    let instrs = blocks[b].instrs;
    if n == 0 {
        seq![other]
    } else {
        let before = thin_steps(function, visit, other, n - 1);
        let rest = staying(blocks, instrs, n - 1);
        let left = staying(blocks, instrs, n);
        let instr = instrs[n - 1];
        let held = visit.states[n - 1];
        let next = visit.states[n];
        assert(steps(instrs[n - 1], visit.states[n - 1], visit.states[n - 1 + 1]));
        lengths_kept(function, visit, n - 1);
        assert(block_within(blocks[b], function.names.len(), blocks.len()));
        assert(instr_within(instrs[n - 1], function.names.len()));
        if stays(blocks, instr) {
            let last = kept_step(blocks, b, n - 1, held, next, before.last());
            let others = before.push(last);
            let m = rest.len() as int;
            assert(left[m] == instr);
            assert forall|k: int| 0 <= k < left.len() implies #[trigger] steps(
                left[k],
                others[k],
                others[k + 1],
            ) by {
                if k < m {
                    assert(left[k] == rest[k]);
                    assert(steps(rest[k], before[k], before[k + 1]));
                    assert(others[k] == before[k] && others[k + 1] == before[k + 1]);
                }
            }
            same_deeds(rest, before, left, others, m);
            assert(others[m] == before.last());
            asks_one_more(
                deeds(instrs, visit.states, n - 1),
                deeds(rest, before, m),
                deed(instr, held, next),
            );
            others
        } else {
            assert(left == rest);
            let dst = instr.written()->0;
            if is_deed(instr) {
                operands_twice(instr, words(instr.operands(), held), instr.operands());
                asks_one_more(
                    deeds(instrs, visit.states, n - 1),
                    deeds(rest, before, rest.len() as int),
                    deed(instr, held, next),
                );
            }
            assert forall|r: int|
                0 <= r < next.len() && is_read(blocks, VReg(r as u32)) implies #[trigger] before.last()[r]
                == next[r] by {
                if r == dst.0 {
                    assert(VReg(r as u32) == dst);
                }
                assert(before.last()[r] == held[r]);
            }
            before
        }
    }
}

/// Handing over what is worth the same keeps what is read the same.
proof fn handing_reads_same(
    blocks: Seq<BlockView>,
    params: Seq<VReg>,
    args: Seq<Value>,
    held: Held,
    other: Held,
    n: int,
)
    requires
        0 <= n <= params.len(),
        n <= args.len(),
        read_the_same(blocks, held, other),
        forall|i: int| 0 <= i < params.len() ==> (#[trigger] params[i]).0 < held.len(),
        forall|i: int|
            0 <= i < args.len() ==> held_by(#[trigger] args[i], other) == held_by(args[i], held),
    ensures
        read_the_same(
            blocks,
            handed_over(params, args, held, n),
            handed_over(params, args, other, n),
        ),
        handed_over(params, args, held, n).len() == held.len(),
    decreases n,
{
    if n > 0 {
        handing_reads_same(blocks, params, args, held, other, n - 1);
        assert(params[n - 1].0 < held.len());
        assert(held_by(args[n - 1], other) == held_by(args[n - 1], held));
    }
}

/// Where control goes from a block, it goes without what nothing reads.
pub proof fn thin_edge(
    function: FunctionView,
    from: int,
    leaving: Held,
    to: int,
    entering: Held,
    other_leaving: Held,
) -> (other_entering: Held)
    requires
        well_formed(function),
        arities_agree(function.blocks),
        0 <= from < function.blocks.len(),
        0 <= to < function.blocks.len(),
        leaving.len() == function.names.len(),
        goes(function.blocks, from, leaving, to, entering),
        read_the_same(function.blocks, leaving, other_leaving),
    ensures
        goes(without_dead(function).blocks, from, other_leaving, to, other_entering),
        read_the_same(function.blocks, entering, other_entering),
        entering.len() == leaving.len(),
{
    let blocks = function.blocks;
    let after = without_dead(function);
    let block = blocks[from];
    let m = block.instrs.len() as int;
    assert(block_within(block, function.names.len(), blocks.len()));
    read_values_same(blocks, from, m, block.term.operands(), leaving, other_leaving);
    let target = goes_to(block.term, leaving)->0;
    goes_along_an_edge(blocks, from, leaving);
    let params = blocks[to].params;
    assert forall|i: int| 0 <= i < target.args.len() implies held_by(
        #[trigger] target.args[i],
        other_leaving,
    ) == held_by(target.args[i], leaving) by {
        match block.term {
            TermView::Jump(_) => {
                assert(block.term.operands()[i] == target.args[i]);
            },
            TermView::Branch { then_blk, .. } => {
                if target == then_blk {
                    assert(block.term.operands()[i + 1] == target.args[i]);
                } else {
                    assert(block.term.operands()[i + 1 + then_blk.args.len()] == target.args[i]);
                }
            },
            TermView::Return(_) => {},
        }
    }
    assert(goes_to(block.term, other_leaving) == Some(target)) by {
        if let TermView::Branch { cond, .. } = block.term {
            assert(block.term.operands()[0] == cond);
        }
    }
    assert(target.args.len() == params.len()) by {
        let k = choose|k: int|
            0 <= k < block.term.targets().len() && block.term.targets()[k] == target;
        assert(blocks[from].term.targets()[k].args.len()
            == blocks[blocks[from].term.targets()[k].block.0 as int].params.len());
    }
    assert(block_within(blocks[to], function.names.len(), blocks.len()));
    handing_reads_same(blocks, params, target.args, leaving, other_leaving, params.len() as int);
    let other_entering = handed_over(params, target.args, other_leaving, params.len() as int);
    assert(goes(after.blocks, from, other_leaving, to, other_entering));
    other_entering
}

/// How a function goes, it goes without what nothing reads. A visit ends with
/// every register that is read holding the same.
pub proof fn through_elimination(function: FunctionView, run: Seq<Visit>) -> (other: Seq<Visit>)
    requires
        well_formed(function),
        arities_agree(function.blocks),
        is_execution(function, run),
    ensures
        in_step(function, run, without_dead(function), other),
        other.last().block == run.last().block,
        read_the_same(function.blocks, run.last().states.last(), other.last().states.last()),
    decreases run.len(),
{
    let blocks = function.blocks;
    let after = without_dead(function);
    let n = run.len() - 1;
    let visit = run[n];
    assert(visits(function, run[n]));
    let count = blocks[visit.block].instrs.len() as int;
    assert(visit.states[count] == visit.states.last());
    state_lengths(function, visit, count);
    let found: (Seq<Visit>, Held) = if run.len() == 1 {
        (seq![], nothing_held(after.names.len()))
    } else {
        let shorter = run.drop_last();
        shorter_execution(function, run);
        let before = through_elimination(function, shorter);
        let from = run[n - 1];
        assert(visits(function, run[n - 1]));
        assert(shorter.last() == from);
        assert(goes(
            blocks,
            run[n - 1].block,
            run[n - 1].states.last(),
            run[n].block,
            run[n].states[0],
        ));
        let other_leaving = before.last().states.last();
        state_lengths(function, from, from.states.len() - 1);
        let entering = thin_edge(
            function,
            from.block,
            from.states.last(),
            visit.block,
            visit.states[0],
            other_leaving,
        );
        assert(goes(after.blocks, from.block, other_leaving, visit.block, entering));
        (before, entering)
    };
    let (before, entering) = found;
    let states = thin_steps(function, visit, entering, count);
    let one = Visit { block: visit.block, states };
    let other = before.push(one);
    let left = staying(blocks, blocks[visit.block].instrs, count);
    assert(after.blocks[visit.block].instrs == left);
    assert(walks(left, states, left.len() as int));
    assert(visits(after, one));
    assert(asks_no_more(visit_deeds(function, visit), visit_deeds(after, one)));
    assert(other.drop_last() =~= before);
    assert forall|i: int| 0 <= i < other.len() implies visits(after, #[trigger] other[i]) by {
        if i < n {
            assert(other[i] == before[i]);
        }
    }
    assert forall|i: int|
        #![trigger other[i]]
        0 < i < other.len() implies goes(
        after.blocks,
        other[i - 1].block,
        other[i - 1].states.last(),
        other[i].block,
        other[i].states[0],
    ) by {
        if i < n {
            assert(other[i] == before[i] && other[i - 1] == before[i - 1]);
        } else {
            assert(other[i - 1] == before.last());
        }
    }
    if n > 0 {
        assert(other[0] == before[0]);
    }
    let term = blocks[visit.block].term;
    if run_answer(function, run) is Some {
        if let TermView::Return(Some(value)) = term {
            assert(block_within(blocks[visit.block], function.names.len(), blocks.len()));
            read_values_same(
                blocks,
                visit.block,
                count,
                term.operands(),
                visit.states.last(),
                states.last(),
            );
            assert(term.operands()[0] == value);
            assert(term.head()[0] == value);
        }
        assert(all_written(term.head(), states.last()));
    }
    assert(asks_no_more(run_deeds(function, run), run_deeds(after, other))) by {
        reveal_with_fuel(run_deeds, 2);
        assert(other.last() == one);
        if n == 0 {
            assert(run.drop_last() =~= seq![]);
        }
        asks_both(
            run_deeds(function, run.drop_last()),
            run_deeds(after, before),
            visit_deeds(function, visit),
            visit_deeds(after, one),
        );
    }
    other
}

// -- all of it --------------------------------------------------------------

/// Propagating keeps the parameters of blocks to themselves.
pub proof fn propagating_keeps_apart(function: FunctionView)
    requires
        well_formed(function),
        params_apart(function.blocks),
    ensures
        params_apart(propagated(function).blocks),
{
    let blocks = function.blocks;
    let middle = known_replaced(function).blocks;
    let after = propagated(function).blocks;
    let entries = analysed(function).entries;
    let n = middle.len() as int;
    assert forall|b: int, k: int|
        #![trigger after[b].instrs[k]]
        0 <= b < after.len() && 0 <= k < after[b].instrs.len() implies match after[b].instrs[k].written() {
        Some(reg) => !is_param(after, reg),
        None => true,
    } by {
        let at = position_taken(middle, n, b);
        assert(after[b] == renumbered(middle, at));
        assert(middle[at] == rewritten_block(blocks[at], entries[at]));
        let count = blocks[at].instrs.len() as int;
        rewriting_knows_the_same(entries[at], blocks[at].instrs, count);
        super::meaning::rewritten_at(entries[at], blocks[at].instrs, count, k);
        let facts = super::facts::transferred(entries[at], blocks[at].instrs, k);
        rewritten_keeps_kind(blocks[at].instrs[k], facts);
        assert(after[b].instrs[k].written() == blocks[at].instrs[k].written());
        if let Some(reg) = after[b].instrs[k].written() {
            if is_param(after, reg) {
                let c = choose|c: int|
                    0 <= c < after.len() && (#[trigger] after[c]).params.contains(reg);
                let from = position_taken(middle, n, c);
                assert(after[c] == renumbered(middle, from));
                assert(blocks[from].params == after[c].params);
                assert(is_param(blocks, reg));
            }
        }
    }
}

/// One round of propagation.
pub proof fn through_propagation(function: FunctionView, run: Seq<Visit>) -> (other: Seq<Visit>)
    requires
        well_formed(function),
        params_apart(function.blocks),
        is_execution(function, run),
    ensures
        in_step(function, run, propagated(function), other),
        well_formed(propagated(function)),
        params_apart(propagated(function).blocks),
        arities_agree(function.blocks) ==> arities_agree(propagated(function).blocks),
{
    let middle = known_replaced(function);
    rounds_settle(function);
    replacing_keeps_well_formed(function);
    through_replacing(function, run);
    same_run_deeds(function, run, middle, run);
    asks_the_same(run_deeds(function, run));
    let other = through_pruning(middle, run);
    pruning_keeps_well_formed(middle);
    propagating_keeps_apart(function);
    if arities_agree(function.blocks) {
        super::rewrite::pruning_keeps_arities(middle);
    }
    does_as_through(function, run, middle, run, propagated(function), other);
    other
}

proof fn through_all_propagation(function: FunctionView, run: Seq<Visit>) -> (other: Seq<Visit>)
    requires
        well_formed(function),
        params_apart(function.blocks),
        arities_agree(function.blocks),
        is_execution(function, run),
    ensures
        in_step(function, run, fully_propagated(function), other),
        well_formed(fully_propagated(function)),
        arities_agree(fully_propagated(function).blocks),
    decreases weight(function.blocks),
{
    let next = propagated(function);
    let between = through_propagation(function, run);
    if propagation_changes(function) {
        propagation_runs_out(function);
        let other = through_all_propagation(next, between);
        does_as_through(function, run, next, between, fully_propagated(function), other);
        other
    } else {
        between
    }
}

proof fn through_all_elimination(function: FunctionView, run: Seq<Visit>) -> (other: Seq<Visit>)
    requires
        well_formed(function),
        arities_agree(function.blocks),
        is_execution(function, run),
    ensures
        in_step(function, run, fully_without_dead(function), other),
    decreases super::dead::instructions(function.blocks),
{
    let next = without_dead(function);
    let between = through_elimination(function, run);
    elimination_keeps_well_formed(function);
    if without_dead(function).blocks != function.blocks {
        elimination_runs_out(function);
        let other = through_all_elimination(next, between);
        does_as_through(function, run, next, between, fully_without_dead(function), other);
        other
    } else {
        between
    }
}

/// **A pass may not change what the program does.** Every run of a function is
/// followed by a run of the optimised function that stores, calls, prints and asks
/// the same, in the same order, with the same words and to the same answers, and
/// that answers the same: all that may be missing is a question whose answer
/// nothing reads.
pub proof fn optimising_keeps_what_is_done(function: FunctionView, run: Seq<Visit>) -> (other: Seq<
    Visit,
>)
    requires
        well_formed(function),
        params_apart(function.blocks),
        arities_agree(function.blocks),
        is_execution(function, run),
    ensures
        in_step(function, run, optimised(function), other),
{
    let middle = fully_propagated(function);
    let between = through_all_propagation(function, run);
    let other = through_all_elimination(middle, between);
    does_as_through(function, run, middle, between, optimised(function), other);
    other
}

proof fn result_listed(instrs: Seq<InstrView>, n: int, k: int) -> (at: int)
    requires
        0 <= k < n <= instrs.len(),
        instrs[k].written() is Some,
    ensures
        0 <= at < results(instrs, n).len(),
        results(instrs, n)[at] == instrs[k].written()->0,
    decreases n,
{
    if k == n - 1 {
        results(instrs, n).len() - 1
    } else {
        result_listed(instrs, n - 1, k)
    }
}

/// In SSA form no instruction writes the parameter of a block.
pub proof fn ssa_form_params_apart(blocks: Seq<BlockView>)
    requires
        defined_once(blocks),
    ensures
        params_apart(blocks),
{
    assert forall|b: int, k: int|
        #![trigger blocks[b].instrs[k]]
        0 <= b < blocks.len() && 0 <= k < blocks[b].instrs.len() implies match blocks[b].instrs[k].written() {
        Some(reg) => !is_param(blocks, reg),
        None => true,
    } by {
        if let Some(reg) = blocks[b].instrs[k].written() {
            let at = result_listed(blocks[b].instrs, blocks[b].instrs.len() as int, k);
            let j = blocks[b].params.len() + at;
            assert(definitions(blocks[b])[j] == reg);
            if is_param(blocks, reg) {
                let a = choose|a: int|
                    0 <= a < blocks.len() && (#[trigger] blocks[a]).params.contains(reg);
                let i = choose|i: int| 0 <= i < blocks[a].params.len() && blocks[a].params[i] == reg;
                assert(definitions(blocks[a])[i] == reg);
            }
        }
    }
}

} // verus!
