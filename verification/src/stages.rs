//! What holds across the stages: what a lowered program does, and where it stops,
//! is what the program a backend is handed does, and where that stops.

use vstd::prelude::*;

use crate::{can_be_numbered, in_ssa_form, out_of_ssa_form, Options};
use crate::ir::block::renumbered;
use crate::ir::deeds::{does_as, does_as_through, run_answer};
use crate::ir::func::{
    arities, arity, call_matches, calls_match, function_known, instr_known, position_taken,
    program_limits, program_well_formed, well_formed, FunctionView, Limits, ProgramView,
};
use crate::ir::halt::{halts, stopped_at, stops_as, stops_as_through};
use crate::ir::instr::InstrView;
use crate::ir::liveness::reads_only_written;
use crate::ir::lower::program::{all_lowered_well, lowered_well};
use crate::ir::run::{is_execution, Visit};
use crate::ir::ssa::construct::{all_constructed, construction_leaves_ssa_form};
use crate::ir::ssa::destruct::{destructed, destructible, destruction_leaves_nothing_handed};
use crate::ir::ssa::form::{
    arities_agree, block_same_but_for_registers, defined_once, same_but_for_registers,
};
use crate::ir::ssa::leaving::{
    destruction_keeps_what_is_done, destruction_keeps_where_it_stops, only_copies_added,
    ssa_form_params_differ, was_there,
};
use crate::ir::ssa::meaning::{
    construction_keeps_what_is_done, construction_keeps_where_it_stops, construction_renames,
    naming_at, renaming_at,
};
use crate::ir::ssa::place::wanted;
use crate::ir::ssa::rename::{constructed, constructible, renamed_instr, tree_of, Renaming};
use crate::opt::dead::{
    elimination_keeps_well_formed, elimination_runs_out, instructions, staying, staying_was_there,
    without_dead,
};
use crate::opt::facts::{analysed, rounds_settle};
use crate::opt::form::optimising_keeps_ssa_form;
use crate::opt::lengths::construction_keeps_lengths_asked;
use crate::opt::meaning::{rewriting_knows_the_same, rewritten_at};
use crate::opt::optimise::{fully_propagated, fully_without_dead, optimised};
use crate::opt::rewrite::{
    known_replaced, propagated, propagation_changes, propagation_runs_out,
    replacing_keeps_well_formed, rewritten_block, weight,
};
use crate::opt::runs::{optimising_keeps_what_is_done, ssa_form_params_apart};
use crate::opt::stops::optimising_keeps_where_it_stops;

verus! {

// -- what is named exists ---------------------------------------------------

/// What an instruction names has nothing to do with its registers.
#[verifier::spinoff_prover]
proof fn known_but_for_registers(
    before: InstrView,
    after: InstrView,
    limits: Limits,
    strings: nat,
    texts: nat,
)
    requires
        same_but_for_registers(before, after),
        instr_known(before, limits, strings, texts),
    ensures
        instr_known(after, limits, strings, texts),
{
}

/// Renaming leaves how many arguments a call hands on.
#[verifier::spinoff_prover]
proof fn renamed_call_matches(start: Renaming, instr: InstrView, limits: Limits)
    requires
        call_matches(instr, limits),
    ensures
        call_matches(renamed_instr(start, instr).0, limits),
{
}

proof fn construction_keeps_known(
    function: FunctionView,
    limits: Limits,
    strings: nat,
    texts: nat,
)
    requires
        constructible(function),
        function_known(function, limits, strings, texts),
        calls_match(function, limits),
    ensures
        function_known(constructed(function), limits, strings, texts),
        calls_match(constructed(function), limits),
        arity(constructed(function)) == arity(function),
{
    let after = constructed(function);
    construction_leaves_ssa_form(function);
    let tree = tree_of(function);
    let starts = construction_renames(function);
    assert forall|b: int, k: int|
        #![trigger after.blocks[b].instrs[k]]
        0 <= b < after.blocks.len() && 0 <= k < after.blocks[b].instrs.len() implies instr_known(
        after.blocks[b].instrs[k],
        limits,
        strings,
        texts,
    ) && call_matches(after.blocks[b].instrs[k], limits) by {
        assert(block_same_but_for_registers(function.blocks[b], after.blocks[b]));
        assert(same_but_for_registers(
            function.blocks[b].instrs[k],
            after.blocks[b].instrs[k],
        ));
        assert(instr_known(function.blocks[b].instrs[k], limits, strings, texts));
        naming_at(starts, function, after, tree, b, k);
        renamed_call_matches(
            renaming_at(starts, function, wanted(function, tree), b, k),
            function.blocks[b].instrs[k],
            limits,
        );
        known_but_for_registers(
            function.blocks[b].instrs[k],
            after.blocks[b].instrs[k],
            limits,
            strings,
            texts,
        );
    }
}

proof fn propagation_keeps_known(
    function: FunctionView,
    limits: Limits,
    strings: nat,
    texts: nat,
)
    requires
        well_formed(function),
        function_known(function, limits, strings, texts),
        calls_match(function, limits),
    ensures
        function_known(fully_propagated(function), limits, strings, texts),
        calls_match(fully_propagated(function), limits),
        arity(fully_propagated(function)) == arity(function),
        well_formed(fully_propagated(function)),
    decreases weight(function.blocks),
{
    let blocks = function.blocks;
    let middle = known_replaced(function);
    let after = propagated(function);
    let entries = analysed(function).entries;
    rounds_settle(function);
    replacing_keeps_well_formed(function);
    crate::ir::func::pruning_keeps_well_formed(middle);
    assert forall|b: int, k: int|
        #![trigger after.blocks[b].instrs[k]]
        0 <= b < after.blocks.len() && 0 <= k < after.blocks[b].instrs.len() implies instr_known(
        after.blocks[b].instrs[k],
        limits,
        strings,
        texts,
    ) && call_matches(after.blocks[b].instrs[k], limits) by {
        let at = position_taken(middle.blocks, middle.blocks.len() as int, b);
        assert(after.blocks[b] == renumbered(middle.blocks, at));
        assert(middle.blocks[at] == rewritten_block(blocks[at], entries[at]));
        let instrs = blocks[at].instrs;
        rewriting_knows_the_same(entries[at], instrs, instrs.len() as int);
        rewritten_at(entries[at], instrs, instrs.len() as int, k);
        assert(instr_known(blocks[at].instrs[k], limits, strings, texts));
    }
    if propagation_changes(function) {
        propagation_runs_out(function);
        propagation_keeps_known(after, limits, strings, texts);
    }
}

proof fn elimination_keeps_known(
    function: FunctionView,
    limits: Limits,
    strings: nat,
    texts: nat,
)
    requires
        well_formed(function),
        function_known(function, limits, strings, texts),
        calls_match(function, limits),
    ensures
        function_known(fully_without_dead(function), limits, strings, texts),
        calls_match(fully_without_dead(function), limits),
        arity(fully_without_dead(function)) == arity(function),
        well_formed(fully_without_dead(function)),
    decreases instructions(function.blocks),
{
    let blocks = function.blocks;
    let after = without_dead(function);
    elimination_keeps_well_formed(function);
    assert forall|b: int, k: int|
        #![trigger after.blocks[b].instrs[k]]
        0 <= b < after.blocks.len() && 0 <= k < after.blocks[b].instrs.len() implies instr_known(
        after.blocks[b].instrs[k],
        limits,
        strings,
        texts,
    ) && call_matches(after.blocks[b].instrs[k], limits) by {
        let instrs = blocks[b].instrs;
        let n = instrs.len() as int;
        staying_was_there(blocks, instrs, n);
        assert(after.blocks[b].instrs[k] == staying(blocks, instrs, n)[k]);
        let j = choose|j: int|
            0 <= j < instrs.take(n).len() && instrs.take(n)[j] == staying(blocks, instrs, n)[k];
        assert(instr_known(blocks[b].instrs[j], limits, strings, texts));
    }
    if without_dead(function).blocks != function.blocks {
        elimination_runs_out(function);
        elimination_keeps_known(after, limits, strings, texts);
    }
}

proof fn destruction_keeps_known(
    function: FunctionView,
    limits: Limits,
    strings: nat,
    texts: nat,
)
    requires
        destructible(function),
        function_known(function, limits, strings, texts),
        calls_match(function, limits),
    ensures
        function_known(destructed(function), limits, strings, texts),
        calls_match(destructed(function), limits),
        arity(destructed(function)) == arity(function),
{
    let after = destructed(function);
    assert forall|b: int, k: int|
        #![trigger after.blocks[b].instrs[k]]
        0 <= b < after.blocks.len() && 0 <= k < after.blocks[b].instrs.len() implies instr_known(
        after.blocks[b].instrs[k],
        limits,
        strings,
        texts,
    ) && call_matches(after.blocks[b].instrs[k], limits) by {
        if b < function.blocks.len() && k < function.blocks[b].instrs.len() {
            was_there(function, b, k);
            assert(instr_known(function.blocks[b].instrs[k], limits, strings, texts));
        } else {
            only_copies_added(function, b, k);
        }
    }
}

/// **Every stage hands on a program in which everything named exists** and every
/// call hands its callee as many arguments as it takes, where it is handed one.
pub proof fn stages_keep_well_formed(program: ProgramView, options: Options)
    requires
        program.functions.len() <= u32::MAX,
        all_lowered_well(
            program.functions,
            program_limits(program),
            program.strings.len(),
            program.texts.len(),
        ),
        can_be_numbered(program, options),
    ensures
        program_well_formed(in_ssa_form(program, options)),
        program_well_formed(out_of_ssa_form(in_ssa_form(program, options))),
        forall|i: int|
            0 <= i < program.functions.len() ==> calls_match(
                #[trigger] in_ssa_form(program, options).functions[i],
                program_limits(in_ssa_form(program, options)),
            ),
        forall|i: int|
            0 <= i < program.functions.len() ==> calls_match(
                #[trigger] out_of_ssa_form(in_ssa_form(program, options)).functions[i],
                program_limits(out_of_ssa_form(in_ssa_form(program, options))),
            ),
{
    let ssa = in_ssa_form(program, options);
    let done = out_of_ssa_form(ssa);
    let limits = program_limits(program);
    let strings = program.strings.len();
    let texts = program.texts.len();
    assert forall|i: int| 0 <= i < program.functions.len() implies well_formed(
        #[trigger] ssa.functions[i],
    ) && function_known(ssa.functions[i], limits, strings, texts) && well_formed(
        done.functions[i],
    ) && function_known(done.functions[i], limits, strings, texts) && calls_match(
        ssa.functions[i],
        limits,
    ) && calls_match(done.functions[i], limits) && arity(ssa.functions[i]) == arity(
        program.functions[i],
    ) && arity(done.functions[i]) == arity(program.functions[i]) by {
        let function = program.functions[i];
        let first = constructed(function);
        assert(lowered_well(program.functions[i], limits, strings, texts));
        construction_keeps_known(function, limits, strings, texts);
        one_definition_each(program, options, i);
        assert(all_constructed(program.functions)[i] == first);
        construction_leaves_ssa_form(function);
        propagation_keeps_known(first, limits, strings, texts);
        elimination_keeps_known(fully_propagated(first), limits, strings, texts);
        assert(done.functions[i] == destructed(ssa.functions[i]));
        destruction_keeps_known(ssa.functions[i], limits, strings, texts);
        destruction_leaves_nothing_handed(ssa.functions[i]);
    }
    assert forall|i: int| 0 <= i < done.functions.len() implies well_formed(
        #[trigger] done.functions[i],
    ) && function_known(done.functions[i], limits, strings, texts) && calls_match(
        done.functions[i],
        limits,
    ) && arity(done.functions[i]) == arity(program.functions[i]) by {
        assert(well_formed(ssa.functions[i]));
    }
    assert(arities(ssa.functions) =~= limits.arities);
    assert(arities(done.functions) =~= limits.arities);
    assert(program_limits(ssa) == limits && program_limits(done) == limits);
}

// -- what is done -----------------------------------------------------------

/// **The middle of the compiler is in SSA form**: what is shown at that stage
/// defines every register once at most, optimised or not, and hands every block
/// one value for each of its parameters.
pub proof fn one_definition_each(program: ProgramView, options: Options, i: int)
    requires
        all_lowered_well(
            program.functions,
            program_limits(program),
            program.strings.len(),
            program.texts.len(),
        ),
        can_be_numbered(program, options),
        0 <= i < program.functions.len(),
    ensures
        well_formed(in_ssa_form(program, options).functions[i]),
        arities_agree(in_ssa_form(program, options).functions[i].blocks),
        defined_once(in_ssa_form(program, options).functions[i].blocks),
{
    let function = program.functions[i];
    assert(lowered_well(
        program.functions[i],
        program_limits(program),
        program.strings.len(),
        program.texts.len(),
    ));
    construction_leaves_ssa_form(function);
    assert(all_constructed(program.functions)[i] == constructed(function));
    optimising_keeps_ssa_form(constructed(function));
}

/// **What a backend is handed does what was lowered**, optimised or not. Every
/// run of a lowered function that comes to a return, and reads nothing that was
/// never written, is followed by a run of what the function becomes that stores,
/// calls, prints and asks the same, in the same order, with the same words and to
/// the same answers, and answers the same. All that may be missing is a question
/// whose answer nothing reads.
pub proof fn compiling_keeps_what_is_done(
    program: ProgramView,
    options: Options,
    i: int,
    run: Seq<Visit>,
) -> (other: Seq<Visit>)
    requires
        all_lowered_well(
            program.functions,
            program_limits(program),
            program.strings.len(),
            program.texts.len(),
        ),
        can_be_numbered(program, options),
        0 <= i < program.functions.len(),
        reads_only_written(program.functions[i]),
        is_execution(program.functions[i], run),
        run_answer(program.functions[i], run) is Some,
    ensures
        does_as(
            program.functions[i],
            run,
            out_of_ssa_form(in_ssa_form(program, options)).functions[i],
            other,
        ),
{
    let function = program.functions[i];
    let first = constructed(function);
    let ssa = in_ssa_form(program, options).functions[i];
    let last = destructed(ssa);
    assert(lowered_well(
        program.functions[i],
        program_limits(program),
        program.strings.len(),
        program.texts.len(),
    ));
    construction_leaves_ssa_form(function);
    ssa_form_params_differ(first.blocks);
    ssa_form_params_apart(first.blocks);
    let renamed = construction_keeps_what_is_done(function, run);
    assert(all_constructed(program.functions)[i] == first);
    let reached = if options.optimise {
        let between = optimising_keeps_what_is_done(first, renamed);
        assert(ssa == optimised(first));
        optimising_keeps_ssa_form(first);
        ssa_form_params_differ(ssa.blocks);
        does_as_through(function, run, first, renamed, ssa, between);
        between
    } else {
        renamed
    };
    let other = destruction_keeps_what_is_done(ssa, reached).0;
    does_as_through(function, run, ssa, reached, last, other);
    other
}

/// **What a backend is handed stops where what was lowered stops**, optimised or
/// not. Where a lowered function that reads nothing that was never written stops,
/// what the function becomes stops at the same operation given the same words,
/// having stored, called and printed the same until then.
pub proof fn compiling_keeps_where_it_stops(
    program: ProgramView,
    options: Options,
    i: int,
    run: Seq<Visit>,
    last: Visit,
) -> (other: (Seq<Visit>, Visit))
    requires
        all_lowered_well(
            program.functions,
            program_limits(program),
            program.strings.len(),
            program.texts.len(),
        ),
        can_be_numbered(program, options),
        0 <= i < program.functions.len(),
        reads_only_written(program.functions[i]),
        halts(program.functions[i], run, last),
    ensures
        stops_as(
            program.functions[i],
            (run, last),
            out_of_ssa_form(in_ssa_form(program, options)).functions[i],
            other,
        ),
{
    let function = program.functions[i];
    let first = constructed(function);
    let ssa = in_ssa_form(program, options).functions[i];
    assert(lowered_well(
        program.functions[i],
        program_limits(program),
        program.strings.len(),
        program.texts.len(),
    ));
    construction_leaves_ssa_form(function);
    ssa_form_params_differ(first.blocks);
    ssa_form_params_apart(first.blocks);
    let renamed = construction_keeps_where_it_stops(function, run, last);
    assert(all_constructed(program.functions)[i] == first);
    let reached = if options.optimise {
        if stopped_at(function, last) is Elem {
            construction_keeps_lengths_asked(function);
        }
        assert(ssa == optimised(first));
        optimising_keeps_ssa_form(first);
        ssa_form_params_differ(ssa.blocks);
        let between = optimising_keeps_where_it_stops(first, renamed.0, renamed.1);
        stops_as_through(function, (run, last), first, renamed, ssa, between);
        between
    } else {
        renamed
    };
    let other = destruction_keeps_where_it_stops(ssa, reached.0, reached.1);
    stops_as_through(function, (run, last), ssa, reached, destructed(ssa), other);
    other
}

} // verus!
