//! The one rule, where a program stops: what the passes leave stops too, having
//! done the same.
//!
//! The machine stops at an operation whose answer does not exist and at an index
//! that is out of range, so a pass may neither drop such an operation nor move
//! anything past it.

use vstd::prelude::*;

use super::dead::{
    elimination_keeps_well_formed, elimination_runs_out, instructions, staying, stays,
    without_dead,
};
use super::facts::{analysed, rounds_settle, transferred};
use super::lengths::{asked_is_never_known, propagating_keeps_lengths_asked};
use super::meaning::{
    arrival_is_known, check_kept, does_the_same, enters, instr_does_the_same, params_apart,
    rewriting_knows_the_same, rewritten_at, start_is_known, true_of, visit_is_known,
    walk_stays_true,
};
use super::optimise::{fully_propagated, fully_without_dead, optimised};
use super::rewrite::{
    folded_operands, known_replaced, propagated, propagation_changes, propagation_runs_out,
    replacing_keeps_well_formed, rewritten_block, rewritten_instr, substituted, weight,
};
use super::runs::{
    execution_is_run, goes_along_an_edge, handing_leaves, moved, operands_twice,
    propagating_keeps_apart, pruned_edge, read_values_same, replaced_edge, rewritten_keeps_kind,
    rewritten_step, run_is_reached, thin_edge, thin_steps, through_elimination, through_pruning,
    through_replacing,
};
use crate::ast::{abs, BinOp};
use crate::graph::{raised_before, reaches_itself};
use crate::ir::block::{flow, pruned, pruned_position, reached_flags, renumbered};
use crate::ir::deeds::{
    asks_both, asks_the_same, deed, deeds, given, is_deed, length_is_asked, lengths_are_asked,
    run_deeds, same_deeds, same_run_deeds, words,
};
use crate::ir::fold::folded_bin;
use crate::ir::func::{block_within, pruning_keeps_well_formed, well_formed, FunctionView};
use crate::ir::halt::{
    done_before, halts, lengths_kept, may_stop, stopped_at, stops_as, stops_as_through,
    stuck_again,
};
use crate::ir::instr::{instr_within, DivGuards, InstrView};
use crate::ir::run::{
    goes_to, held_by, is_checked, may_write, nothing_held, steps, visits, walks, Held, Visit,
};
use crate::ir::ssa::form::arities_agree;
use crate::ir::ssa::leaving::state_lengths;
use crate::ir::value::{value_within, Value};

verus! {

/// A division by something other than zero has an answer, but for the one that
/// does not fit.
proof fn division_answers(op: BinOp, a: i64, b: i64)
    requires
        op.spec_divides(),
        b != 0,
        !(a == i64::MIN && b == -1),
    ensures
        op.answer(a, b) is Some,
{
    let x = abs(a as int);
    let y = abs(b as int);
    assert(0 <= x / y <= x && 0 <= x % y < y && (y >= 2 ==> x / y <= x / 2) && (y == 1 ==> x / y
        == x)) by (nonlinear_arith)
        requires
            x >= 0,
            y >= 1,
    ;
}

/// Only what can fail stops the machine.
pub proof fn only_what_can_fail_stops(instr: InstrView, held: Held)
    requires
        may_stop(instr, held),
    ensures
        instr.may_fail(),
{
    match instr {
        InstrView::Elem { index, len, .. } => {
            if !is_checked(index, len) {
                assert(may_write(instr, held, 0));
            }
        },
        InstrView::Const { val, .. } => {
            assert(may_write(instr, held, val));
        },
        InstrView::Copy { src, .. } => {
            assert(instr.operands()[0] == src);
            assert(held_by(instr.operands()[0], held) is Some);
            assert(may_write(instr, held, held_by(src, held)->0));
        },
        InstrView::Bin { num, op, lhs, rhs, .. } => {
            let a = held_by(lhs, held)->0;
            let b = held_by(rhs, held)->0;
            let answer = folded_bin(num, op, Value::Const(a), Value::Const(b));
            if answer is Some {
                assert(may_write(instr, held, answer->0));
            }
            assert(instr.operands()[0] == lhs && instr.operands()[1] == rhs);
            assert(held_by(instr.operands()[0], held) is Some);
            assert(held_by(instr.operands()[1], held) is Some);
            if num is Int && op.spec_divides() && !DivGuards::spec_of(lhs, rhs).needed() {
                division_answers(op, a, b);
            }
        },
        InstrView::Cmp { num, op, lhs, rhs, .. } => {
            let a = held_by(lhs, held)->0;
            let b = held_by(rhs, held)->0;
            let answer = crate::ir::fold::folded_comparison(
                num,
                op,
                Value::Const(a),
                Value::Const(b),
            );
            assert(may_write(instr, held, answer->0));
        },
        _ => {
            assert(may_write(instr, held, 0));
        },
    }
}

// -- rewriting --------------------------------------------------------------

/// What is said of a block is true where a run arrives at it.
proof fn halt_is_known(function: FunctionView, run: Seq<Visit>, last: Visit)
    requires
        well_formed(function),
        params_apart(function.blocks),
        halts(function, run, last),
    ensures
        true_of(analysed(function).entries[last.block], last.states[0], function.blocks),
{
    let blocks = function.blocks;
    if run.len() == 0 {
        start_is_known(function, last.states[0]);
    } else {
        let n = run.len() - 1;
        let from = run[n];
        assert(visits(function, run[n]));
        execution_is_run(function, run);
        visit_is_known(function, run, n);
        let leaving = from.states.last();
        goes_along_an_edge(blocks, from.block, leaving);
        state_lengths(function, from, from.states.len() - 1);
        let target = goes_to(blocks[from.block].term, leaving)->0;
        let params = blocks[last.block].params;
        assert(block_within(blocks[last.block], function.names.len(), blocks.len()));
        handing_leaves(params, target.args, leaving, params.len() as int);
        assert(enters(blocks, from.block, leaving, last.block, last.states[0]));
        arrival_is_known(function, from, last.block, last.states[0]);
    }
}

/// A length that is asked for is not put in place of.
proof fn length_stays(function: FunctionView, b: int, k: int)
    requires
        well_formed(function),
        lengths_are_asked(function.blocks),
        0 <= b < function.blocks.len(),
        0 <= k < function.blocks[b].instrs.len(),
        function.blocks[b].instrs[k] is Elem,
    ensures
        ({
            let instr = function.blocks[b].instrs[k];
            let facts = transferred(analysed(function).entries[b], function.blocks[b].instrs, k);
            let after = rewritten_instr(instr, facts).0;
            instr matches InstrView::Elem { len, .. } && len is Reg ==> after.operands()[2]
                == instr.operands()[2]
        }),
{
    let block = function.blocks[b];
    let instr = block.instrs[k];
    let facts = transferred(analysed(function).entries[b], block.instrs, k);
    if let InstrView::Elem { len: Value::Reg(reg), .. } = instr {
        assert(length_is_asked(function.blocks, function.blocks[b].instrs[k]));
        assert(block_within(block, function.names.len(), function.blocks.len()));
        assert(instr_within(block.instrs[k], function.names.len()));
        assert(value_within(instr.operands()[2], function.names.len()));
        asked_is_never_known(function, b, k, reg);
        assert(rewritten_instr(instr, facts).0 == substituted(instr, facts));
        assert(substituted(instr, facts).operands() =~= folded_operands(instr, facts));
    }
}

/// Where a function stops, it stops with what is known put in place.
proof fn halt_replaced(function: FunctionView, run: Seq<Visit>, last: Visit)
    requires
        well_formed(function),
        params_apart(function.blocks),
        stopped_at(function, last) is Elem ==> lengths_are_asked(function.blocks),
        halts(function, run, last),
    ensures
        stops_as(function, (run, last), known_replaced(function), (run, last)),
{
    let after = known_replaced(function);
    let blocks = function.blocks;
    let b = last.block;
    let block = blocks[b];
    let k = last.states.len() - 1;
    let n = block.instrs.len() as int;
    let entries = analysed(function).entries;
    rounds_settle(function);
    halt_is_known(function, run, last);
    assert(after.blocks[b] == rewritten_block(block, entries[b]));
    rewriting_knows_the_same(entries[b], block.instrs, n);
    let instrs = after.blocks[b].instrs;
    assert(block_within(block, function.names.len(), blocks.len()));
    assert(walks(block.instrs, last.states, k));
    assert forall|j: int| 0 <= j <= k implies #[trigger] does_the_same(
        block.instrs[j],
        instrs[j],
        last.states[j],
    ) && check_kept(block.instrs[j], instrs[j]) && instrs[j] == rewritten_instr(
        block.instrs[j],
        transferred(entries[b], block.instrs, j),
    ).0 by {
        let facts = transferred(entries[b], block.instrs, j);
        walk_stays_true(entries[b], last.states, function, b, k, j);
        rewritten_at(entries[b], block.instrs, n, j);
        assert(instr_within(block.instrs[j], function.names.len()));
        if j < k {
            assert(steps(block.instrs[j], last.states[j], last.states[j + 1]));
        }
        instr_does_the_same(facts, last.states[j], blocks, block.instrs[j]);
    }
    assert forall|j: int| 0 <= j < k implies #[trigger] steps(
        instrs[j],
        last.states[j],
        last.states[j + 1],
    ) && is_deed(instrs[j]) == is_deed(block.instrs[j]) && (is_deed(block.instrs[j]) ==> deed(
        instrs[j],
        last.states[j],
        last.states[j + 1],
    ) == deed(block.instrs[j], last.states[j], last.states[j + 1])) by {
        assert(steps(block.instrs[j], last.states[j], last.states[j + 1]));
        assert(does_the_same(block.instrs[j], instrs[j], last.states[j]));
        rewritten_keeps_kind(block.instrs[j], transferred(entries[b], block.instrs, j));
        rewritten_step(block.instrs[j], instrs[j], last.states[j], last.states[j + 1]);
    }
    assert forall|j: int| 0 <= j < k implies is_deed(#[trigger] instrs[j]) == is_deed(
        block.instrs[j],
    ) && (is_deed(block.instrs[j]) ==> deed(
        instrs[j],
        last.states[j],
        last.states[j + 1],
    ) == deed(block.instrs[j], last.states[j], last.states[j + 1])) by {
        assert(steps(instrs[j], last.states[j], last.states[j + 1]));
    }
    same_deeds(block.instrs, last.states, instrs, last.states, k);
    rewritten_keeps_kind(block.instrs[k], transferred(entries[b], block.instrs, k));
    assert(does_the_same(block.instrs[k], instrs[k], last.states[k]));
    if block.instrs[k] is Elem {
        assert(stopped_at(function, last) is Elem);
        length_stays(function, b, k);
    }
    stuck_replaced(block.instrs[k], instrs[k], last.states[k]);
    if run.len() > 0 {
        let m = run.len() - 1;
        execution_is_run(function, run);
        through_replacing(function, run);
        same_run_deeds(function, run, after, run);
        replaced_edge(function, run, m, b, last.states[0]);
    } else {
        assert(run_deeds(after, run) =~= run_deeds(function, run));
    }
    asks_the_same(done_before(function, run, last));
}

/// What stops the machine still does with operands of the same worth.
#[verifier::spinoff_prover]
proof fn stuck_replaced(before: InstrView, after: InstrView, held: Held)
    requires
        may_stop(before, held),
        does_the_same(before, after, held),
        check_kept(before, after),
        before matches InstrView::Elem { len, .. } && len is Reg ==> after.operands()[2]
            == before.operands()[2],
        after.written() == before.written(),
    ensures
        may_stop(after, held),
        given(after, held) == given(before, held),
{
    let operands = before.operands();
    let others = after.operands();
    if after == before.with_operands(others) && others.len() == operands.len() && (forall|i: int|
        0 <= i < operands.len() ==> held_by(#[trigger] others[i], held) == held_by(
            operands[i],
            held,
        )) {
        assert forall|i: int| 0 <= i < others.len() implies held_by(
            #[trigger] others[i],
            held,
        ) is Some by {
            assert(held_by(operands[i], held) is Some);
        }
        assert(words(others, held) =~= words(operands, held));
        operands_twice(before, others, words(operands, held));
        assert forall|word: i64| !may_write(before, held, word) implies !#[trigger] may_write(
            after,
            held,
            word,
        ) by {
            match before {
                InstrView::Copy { .. } => {
                    assert(held_by(others[0], held) == held_by(operands[0], held));
                },
                InstrView::Bin { .. } => {
                    assert(held_by(others[0], held) == held_by(operands[0], held));
                    assert(held_by(others[1], held) == held_by(operands[1], held));
                },
                InstrView::Cmp { .. } => {
                    assert(held_by(others[0], held) == held_by(operands[0], held));
                    assert(held_by(others[1], held) == held_by(operands[1], held));
                },
                InstrView::Elem { index, len, .. } => {
                    assert(held_by(others[1], held) == held_by(operands[1], held));
                    assert(held_by(others[2], held) == held_by(operands[2], held));
                    assert(operands[1] == index && operands[2] == len);
                },
                _ => {},
            }
        }
    } else {
        assert(after is Const);
        assert(may_write(before, held, after->Const_val));
        if before is RtCall || before is Cast {
            assert(may_write(before, held, 0) && may_write(before, held, 1));
        }
    }
}

// -- pruning ----------------------------------------------------------------

/// Where a function stops, it stops without the blocks nothing gets to.
proof fn halt_pruned(function: FunctionView, run: Seq<Visit>, last: Visit) -> (other: (
    Seq<Visit>,
    Visit,
))
    requires
        well_formed(function),
        halts(function, run, last),
    ensures
        stops_as(
            function,
            (run, last),
            FunctionView { blocks: pruned(function.blocks), ..function },
            other,
        ),
{
    let blocks = function.blocks;
    let after = FunctionView { blocks: pruned(blocks), ..function };
    let flags = reached_flags(blocks);
    let to = moved(function, last);
    pruning_keeps_well_formed(function);
    if run.len() == 0 {
        reaches_itself(flow(blocks), 0);
        pruned_position(blocks, blocks.len() as int, 0);
        assert(raised_before(flags, 0) == 0);
        assert(after.blocks[to.block] == renumbered(blocks, last.block));
        assert(run_deeds(after, run) =~= run_deeds(function, run));
        asks_the_same(done_before(function, run, last));
        (run, to)
    } else {
        let n = run.len() - 1;
        let other = through_pruning(function, run);
        assert(visits(function, run[n]));
        run_is_reached(function, run, n);
        pruned_edge(function, run[n].block, run[n].states.last(), last.block, last.states[0]);
        pruned_position(blocks, blocks.len() as int, last.block);
        assert(after.blocks[to.block] == renumbered(blocks, last.block));
        let done = deeds(blocks[last.block].instrs, last.states, last.states.len() - 1);
        asks_the_same(done);
        asks_both(run_deeds(function, run), run_deeds(after, other), done, done);
        (other, to)
    }
}

// -- dropping what nothing reads --------------------------------------------

/// What stays is what stays of more.
proof fn staying_further(
    function: FunctionView,
    instrs: Seq<InstrView>,
    n: int,
    m: int,
)
    requires
        0 <= n <= m <= instrs.len(),
    ensures
        staying(function.blocks, instrs, n).len() <= staying(function.blocks, instrs, m).len(),
        forall|k: int|
            0 <= k < staying(function.blocks, instrs, n).len() ==> #[trigger] staying(
                function.blocks,
                instrs,
                m,
            )[k] == staying(function.blocks, instrs, n)[k],
    decreases m - n,
{
    if n < m {
        staying_further(function, instrs, n, m - 1);
        let before = staying(function.blocks, instrs, m - 1);
        let least = staying(function.blocks, instrs, n);
        assert forall|k: int| 0 <= k < least.len() implies #[trigger] staying(
            function.blocks,
            instrs,
            m,
        )[k] == least[k] by {
            assert(before[k] == least[k]);
        }
    }
}

/// Where a function stops, it stops without what nothing reads.
proof fn halt_thinned(function: FunctionView, run: Seq<Visit>, last: Visit) -> (other: (
    Seq<Visit>,
    Visit,
))
    requires
        well_formed(function),
        arities_agree(function.blocks),
        halts(function, run, last),
    ensures
        stops_as(function, (run, last), without_dead(function), other),
{
    let blocks = function.blocks;
    let after = without_dead(function);
    let b = last.block;
    let instrs = blocks[b].instrs;
    let k = last.states.len() - 1;
    let count = function.names.len();
    let found: (Seq<Visit>, Held) = if run.len() == 0 {
        assert(run_deeds(after, run) =~= run_deeds(function, run));
        asks_the_same(run_deeds(function, run));
        (run, nothing_held(after.names.len()))
    } else {
        let n = run.len() - 1;
        let from = run[n];
        assert(visits(function, run[n]));
        let other = through_elimination(function, run);
        state_lengths(function, from, from.states.len() - 1);
        let entering = thin_edge(
            function,
            from.block,
            from.states.last(),
            b,
            last.states[0],
            other.last().states.last(),
        );
        (other, entering)
    };
    let (other, entering) = found;
    let states = thin_steps(function, last, entering, k);
    let one = Visit { block: b, states };
    let left = staying(blocks, instrs, k);
    let all = staying(blocks, instrs, instrs.len() as int);
    let at = left.len() as int;
    assert(after.blocks[b].instrs == all);
    only_what_can_fail_stops(instrs[k], last.states[k]);
    assert(stays(blocks, instrs[k]));
    staying_further(function, instrs, k, instrs.len() as int);
    staying_further(function, instrs, k + 1, instrs.len() as int);
    assert(staying(blocks, instrs, k + 1)[at] == instrs[k]);
    assert(all[at] == instrs[k]);
    assert forall|j: int| 0 <= j < at implies #[trigger] steps(all[j], states[j], states[j + 1]) by {
        assert(all[j] == left[j]);
        assert(steps(left[j], states[j], states[j + 1]));
    }
    assert forall|j: int| 0 <= j < at implies is_deed(#[trigger] all[j]) == is_deed(left[j]) && (
    is_deed(left[j]) ==> deed(all[j], states[j], states[j + 1]) == deed(
        left[j],
        states[j],
        states[j + 1],
    )) by {
        assert(all[j] == left[j]);
    }
    same_deeds(left, states, all, states, at);
    asks_both(
        run_deeds(function, run),
        run_deeds(after, other),
        deeds(instrs, last.states, k),
        deeds(all, states, at),
    );
    // What it reads where it stops is worth the same.
    lengths_kept(function, last, k);
    assert(block_within(blocks[b], count, blocks.len()));
    assert(instr_within(instrs[k], count));
    read_values_same(blocks, b, k, instrs[k].operands(), last.states[k], states[at]);
    stuck_again(instrs[k], last.states[k], states[at]);
    (other, one)
}

// -- all of it --------------------------------------------------------------

proof fn halt_propagated(function: FunctionView, run: Seq<Visit>, last: Visit) -> (other: (
    Seq<Visit>,
    Visit,
))
    requires
        well_formed(function),
        params_apart(function.blocks),
        arities_agree(function.blocks),
        stopped_at(function, last) is Elem ==> lengths_are_asked(function.blocks),
        halts(function, run, last),
    ensures
        stops_as(function, (run, last), fully_propagated(function), other),
        well_formed(fully_propagated(function)),
        arities_agree(fully_propagated(function).blocks),
    decreases weight(function.blocks),
{
    let middle = known_replaced(function);
    let next = propagated(function);
    rounds_settle(function);
    replacing_keeps_well_formed(function);
    halt_replaced(function, run, last);
    pruning_keeps_well_formed(middle);
    propagating_keeps_apart(function);
    if stopped_at(function, last) is Elem {
        propagating_keeps_lengths_asked(function);
    }
    super::rewrite::pruning_keeps_arities(middle);
    let between = halt_pruned(middle, run, last);
    stops_as_through(function, (run, last), middle, (run, last), next, between);
    if propagation_changes(function) {
        propagation_runs_out(function);
        let other = halt_propagated(next, between.0, between.1);
        stops_as_through(
            function,
            (run, last),
            next,
            between,
            fully_propagated(function),
            other,
        );
        other
    } else {
        between
    }
}

proof fn halt_eliminated(function: FunctionView, run: Seq<Visit>, last: Visit) -> (other: (
    Seq<Visit>,
    Visit,
))
    requires
        well_formed(function),
        arities_agree(function.blocks),
        halts(function, run, last),
    ensures
        stops_as(function, (run, last), fully_without_dead(function), other),
    decreases instructions(function.blocks),
{
    let next = without_dead(function);
    let between = halt_thinned(function, run, last);
    elimination_keeps_well_formed(function);
    if next.blocks != function.blocks {
        elimination_runs_out(function);
        let other = halt_eliminated(next, between.0, between.1);
        stops_as_through(
            function,
            (run, last),
            next,
            between,
            fully_without_dead(function),
            other,
        );
        other
    } else {
        between
    }
}

/// **A pass may not change where the program stops.** Where a function stops — at
/// an operation that has no answer, at an index that is out of range, at a
/// conversion or in a routine — the optimised function stops at the same operation
/// given the same words, having stored, called and printed the same until then,
/// and asked nothing else. Where it stops at an index, the lengths that indices are
/// looked at against have to be asked for: one that a pass works out is not looked
/// at any more.
pub proof fn optimising_keeps_where_it_stops(
    function: FunctionView,
    run: Seq<Visit>,
    last: Visit,
) -> (other: (Seq<Visit>, Visit))
    requires
        well_formed(function),
        params_apart(function.blocks),
        arities_agree(function.blocks),
        stopped_at(function, last) is Elem ==> lengths_are_asked(function.blocks),
        halts(function, run, last),
    ensures
        stops_as(function, (run, last), optimised(function), other),
{
    let middle = fully_propagated(function);
    let between = halt_propagated(function, run, last);
    let other = halt_eliminated(middle, between.0, between.1);
    stops_as_through(function, (run, last), middle, between, optimised(function), other);
    other
}

} // verus!
