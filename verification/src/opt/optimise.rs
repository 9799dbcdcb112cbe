//! Running the passes until they have nothing left to do.

use vstd::prelude::*;

use super::dead::{elimination_runs_out, eliminate_dead, instructions, without_dead};
use super::rewrite::{
    propagate, propagated, propagation_changes, propagation_runs_out, weight,
};
use crate::ir::func::{function_views, well_formed, Function, FunctionView, Program, ProgramView};
use crate::ir::ssa::form::arities_agree;

verus! {

/// A function with constants propagated until that changes nothing.
pub open spec fn fully_propagated(function: FunctionView) -> FunctionView
    decreases weight(function.blocks),
{
    if propagation_changes(function) {
        proof {
            propagation_runs_out(function);
        }
        fully_propagated(propagated(function))
    } else {
        propagated(function)
    }
}

/// A function with dead instructions removed until there are none.
pub open spec fn fully_without_dead(function: FunctionView) -> FunctionView
    decreases instructions(function.blocks),
{
    if without_dead(function).blocks != function.blocks {
        proof {
            elimination_runs_out(function);
        }
        fully_without_dead(without_dead(function))
    } else {
        without_dead(function)
    }
}

/// An optimised function.
pub open spec fn optimised(function: FunctionView) -> FunctionView {
    fully_without_dead(fully_propagated(function))
}

/// Optimise a function, in place.
pub fn optimise_function(function: &mut Function)
    requires
        well_formed(old(function)@),
    ensures
        final(function)@ == optimised(old(function)@),
        well_formed(final(function)@),
        arities_agree(old(function)@.blocks) ==> arities_agree(final(function)@.blocks),
{
    let ghost whole = function@;
    // Each round either replaces a register operand with a constant or drops a
    // block, and neither can be undone — so the loop runs out of things to do
    // rather than needing a limit to stop it.
    let mut changed: bool = propagate(function);
    proof {
        propagation_runs_out(whole);
    }
    while changed
        invariant
            well_formed(function@),
            arities_agree(whole.blocks) ==> arities_agree(function@.blocks),
            if changed {
                fully_propagated(function@) == fully_propagated(whole)
            } else {
                function@ == fully_propagated(whole)
            },
        decreases weight(function@.blocks), changed as int,
    {
        proof {
            propagation_runs_out(function@);
        }
        changed = propagate(function);
    }
    let ghost middle = function@;
    let mut removed: bool = eliminate_dead(function);
    while removed
        invariant
            well_formed(function@),
            arities_agree(whole.blocks) ==> arities_agree(function@.blocks),
            if removed {
                fully_without_dead(function@) == fully_without_dead(middle)
            } else {
                function@ == fully_without_dead(middle)
            },
        decreases instructions(function@.blocks), removed as int,
    {
        proof {
            elimination_runs_out(function@);
        }
        removed = eliminate_dead(function);
    }
}

/// What comes of each of a run of functions.
pub open spec fn all_optimised(functions: Seq<FunctionView>) -> Seq<FunctionView> {
    functions.map_values(|function: FunctionView| optimised(function))
}

/// Optimise every function in the program, in place.
pub fn optimise(program: &mut Program)
    requires
        forall|i: int|
            0 <= i < old(program)@.functions.len() ==> well_formed(
                #[trigger] old(program)@.functions[i],
            ),
    ensures
        final(program)@ == (ProgramView {
            functions: all_optimised(old(program)@.functions),
            ..old(program)@
        }),
        forall|i: int|
            0 <= i < old(program)@.functions.len() ==> well_formed(
                #[trigger] final(program)@.functions[i],
            ),
        forall|i: int|
            0 <= i < old(program)@.functions.len() && arities_agree(
                old(program)@.functions[i].blocks,
            ) ==> arities_agree((#[trigger] final(program)@.functions[i]).blocks),
{
    let ghost before = program@;
    let ghost whole = *program;
    let count: usize = program.functions.len();
    let mut i: usize = 0;
    while i < count
        invariant
            i <= count == program.functions@.len(),
            before.functions.len() == count,
            before == whole@,
            program.strings == whole.strings,
            program.texts == whole.texts,
            program.vtables == whole.vtables,
            program.table == whole.table,
            forall|k: int| 0 <= k < count ==> well_formed(#[trigger] before.functions[k]),
            forall|k: int|
                0 <= k < i ==> (#[trigger] program.functions@[k])@ == optimised(
                    before.functions[k],
                ) && well_formed(program.functions@[k]@) && (arities_agree(
                    before.functions[k].blocks,
                ) ==> arities_agree(program.functions@[k]@.blocks)),
            forall|k: int|
                i <= k < count ==> (#[trigger] program.functions@[k])@ == before.functions[k],
        decreases count - i,
    {
        assert(program.functions@[i as int]@ == before.functions[i as int]);
        assert(well_formed(before.functions[i as int]));
        optimise_function(&mut program.functions[i]);
        i = i + 1;
    }
    assert(function_views(program.functions@) =~= all_optimised(before.functions));
    assert forall|k: int| 0 <= k < count implies #[trigger] program@.functions[k]
        == program.functions@[k]@ by {}
}

} // verus!
