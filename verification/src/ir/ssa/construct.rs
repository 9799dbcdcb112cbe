//! Into SSA form.

use vstd::prelude::*;

use super::dom::{flow_is_closed, tree_exists, Dominators};
use super::form::{
    arities_agree, block_same_but_for_registers, defined_once, same_but_for_registers,
    walk_ends_well, wanted_within,
};
use super::names::Names;
use super::place::{parameters_wanted, wanted};
use super::rename::{
    arrived_in, constructed, constructible, lists_of, tree_is,
    tree_of, walk, walk_start, walked,
};
use crate::graph::reaches;
use crate::ir::block::{flow, reached};
use crate::ir::func::{
    all_reached, arrived, arrives_in, block_within, function_views, leading, well_formed, Function,
    FunctionView, Program, ProgramView,
};
use crate::ir::instr::{instr_within, InstrView};
use crate::ir::value::{BlockId, VReg};

verus! {

/// An index an argument arrives at is one that can be written down, and so is
/// the register it arrives in.
proof fn arrives_within(instrs: Seq<InstrView>, index: int, n: int, registers: nat)
    requires
        0 <= n <= instrs.len(),
        arrives_in(instrs, index, n) is Some,
        forall|k: int| 0 <= k < instrs.len() ==> instr_within(#[trigger] instrs[k], registers),
    ensures
        0 <= index <= u32::MAX,
        (arrives_in(instrs, index, n)->0).0 < registers,
    decreases n,
{
    assert(instr_within(instrs[n - 1], registers));
    if arrives_in(instrs, index, n - 1) is Some {
        arrives_within(instrs, index, n - 1, registers);
    }
}

/// An argument still arrives once everything is renamed.
proof fn still_arrives(before: Seq<InstrView>, after: Seq<InstrView>, index: int, n: int)
    requires
        0 <= n <= before.len() == after.len(),
        forall|k: int|
            0 <= k < before.len() ==> same_but_for_registers(before[k], #[trigger] after[k]),
        arrives_in(before, index, n) is Some,
    ensures
        arrives_in(after, index, n) is Some,
    decreases n,
{
    assert(same_but_for_registers(before[n - 1], after[n - 1]));
    if arrives_in(before, index, n - 1) is Some {
        still_arrives(before, after, index, n - 1);
    }
}

/// A function all of whose blocks are reached has a dominator tree.
pub proof fn function_has_a_tree(function: FunctionView)
    requires
        well_formed(function),
        all_reached(function.blocks),
    ensures
        tree_of(function).well_formed(),
        tree_of(function).graph == flow(function.blocks),
{
    flow_is_closed(function);
    let graph = flow(function.blocks);
    assert forall|b: int| 0 <= b < graph.len() implies #[trigger] reaches(graph, 0, b) by {
        assert(reached(function.blocks, b));
    }
    let tree = tree_exists(graph);
    assert(tree.well_formed() && tree.graph == flow(function.blocks));
}

/// A function put into SSA form: **every virtual register is written exactly
/// once**, every edge hands its block one value for each of its parameters,
/// everything named exists, control goes where it went, and every instruction
/// does what it did, but for the registers it does it to.
pub proof fn construction_leaves_ssa_form(function: FunctionView)
    requires
        constructible(function),
    ensures
        well_formed(constructed(function)),
        defined_once(constructed(function).blocks),
        arities_agree(constructed(function).blocks),
        flow(constructed(function).blocks) == flow(function.blocks),
        all_reached(constructed(function).blocks),
        constructed(function).blocks.len() == function.blocks.len(),
        forall|b: int|
            0 <= b < function.blocks.len() ==> block_same_but_for_registers(
                function.blocks[b],
                #[trigger] constructed(function).blocks[b],
            ),
        forall|i: int|
            0 <= i < function.params.len() ==> arrived(
                constructed(function),
                i + leading(function.ret),
            ) == Some(#[trigger] constructed(function).params[i]),
{
    let after = constructed(function);
    function_has_a_tree(function);
    let tree = tree_of(function);
    walk_ends_well(function, tree);
    let end = walked(walk_start(function), tree, wanted(function, tree));
    assert(after.blocks == end.blocks);
    assert forall|b: int| 0 <= b < function.blocks.len() implies flow(function.blocks)[b] == flow(
        after.blocks,
    )[b] by {
        assert(block_same_but_for_registers(function.blocks[b], end.blocks[b]));
    }
    assert(flow(function.blocks) =~= flow(after.blocks));
    assert forall|b: int| 0 <= b < after.blocks.len() implies #[trigger] reached(
        after.blocks,
        b,
    ) by {
        assert(reached(function.blocks, b));
    }
    assert forall|i: int| 0 <= i < function.params.len() implies arrived(
        after,
        i + leading(function.ret),
    ) == Some(#[trigger] after.params[i]) && after.params[i].0 < after.names.len() by {
        let index = i + leading(function.ret);
        assert(arrived(function, index) is Some);
        assert(block_same_but_for_registers(function.blocks[0], end.blocks[0]));
        assert(block_within(end.blocks[0], end.names.names.len(), function.blocks.len()));
        still_arrives(
            function.blocks[0].instrs,
            end.blocks[0].instrs,
            index,
            function.blocks[0].instrs.len() as int,
        );
        arrives_within(
            end.blocks[0].instrs,
            index,
            end.blocks[0].instrs.len() as int,
            end.names.names.len(),
        );
    }
    assert forall|b: int| 0 <= b < after.blocks.len() implies block_within(
        #[trigger] after.blocks[b],
        after.names.len(),
        after.blocks.len(),
    ) && after.blocks[b].index == b by {
        assert(block_same_but_for_registers(function.blocks[b], end.blocks[b]));
        assert(block_within(end.blocks[b], end.names.names.len(), function.blocks.len()));
        assert(function.blocks[b].index == b);
    }
}

// -- doing it ---------------------------------------------------------------

/// Put a function into SSA form.
pub fn construct_function(function: &mut Function)
    requires
        constructible(old(function)@),
    ensures
        final(function)@ == constructed(old(function)@),
{
    let ghost whole = function@;
    let dominators = Dominators::of(function);
    let wants: Vec<Vec<VReg>> = parameters_wanted(function, &dominators);
    proof {
        tree_is(whole, dominators@);
        assert(lists_of(wants@) =~= wanted(whole, dominators@));
    }
    rename(function, &dominators, &wants);
}

/// Give every definition a register of its own, and every use the definition that
/// reaches it.
fn rename(function: &mut Function, dominators: &Dominators, wants: &Vec<Vec<VReg>>)
    requires
        constructible(old(function)@),
        dominators.well_formed(),
        dominators@.well_formed(),
        dominators@ == tree_of(old(function)@),
        dominators@.graph == flow(old(function)@.blocks),
        wants@.len() == old(function)@.blocks.len(),
        lists_of(wants@) == wanted(old(function)@, dominators@),
    ensures
        final(function)@ == constructed(old(function)@),
{
    let ghost whole = function@;
    let ghost tree = dominators@;
    let children: Vec<Vec<BlockId>> = dominators.children();
    proof {
        wanted_within(whole, tree);
    }
    let mut names = Names::of(function);
    walk(function, &mut names, &children, wants, Ghost(tree), Ghost(whole));
    function.vreg_names = names.finish();
    let ghost renamed = function@;
    proof {
        construction_leaves_ssa_form(whole);
        let end = walked(walk_start(whole), tree, wanted(whole, tree));
        assert(renamed =~= (FunctionView {
            blocks: end.blocks,
            names: end.names.names,
            ..whole
        }));
        assert(constructed(whole).blocks == renamed.blocks);
    }
    // A parameter is defined by an `Instr::Param` in the entry block, which the
    // walk above has just renamed; the signature has to follow it. The argument
    // index is what survived the renaming, so it is what the two are matched on.
    let before: u32 = match function.ret {
        Some(ty) => if ty.fits_in_a_register() {
            0
        } else {
            1
        },
        None => 0,
    };
    let mut params: Vec<VReg> = Vec::new();
    let mut i: usize = 0;
    while i < function.params.len()
        invariant
            i <= function.params@.len(),
            constructible(whole),
            function@ == renamed,
            renamed.ret == whole.ret,
            renamed.blocks == constructed(whole).blocks,
            renamed.blocks.len() > 0,
            function.params@ == whole.params,
            before == leading(whole.ret),
            params@.len() == i,
            forall|k: int|
                0 <= k < whole.params.len() ==> arrived(
                    constructed(whole),
                    k + leading(whole.ret),
                ) == Some(#[trigger] constructed(whole).params[k]),
            well_formed(constructed(whole)),
            forall|k: int| 0 <= k < i ==> #[trigger] params@[k] == constructed(whole).params[k],
        decreases function.params@.len() - i,
    {
        let ghost index = i + leading(whole.ret);
        proof {
            assert(arrived(constructed(whole), index) == Some(constructed(whole).params[i as int]));
            assert(arrived(renamed, index) == arrived(constructed(whole), index));
            assert(block_within(
                constructed(whole).blocks[0],
                constructed(whole).names.len(),
                constructed(whole).blocks.len(),
            ));
            arrives_within(
                renamed.blocks[0].instrs,
                index,
                renamed.blocks[0].instrs.len() as int,
                constructed(whole).names.len(),
            );
        }
        match arrived_in(function, i as u32 + before) {
            Some(reg) => params.push(reg),
            None => {},
        }
        i = i + 1;
    }
    function.params = params;
    proof {
        assert(params@ =~= constructed(whole).params);
        assert(function@ =~= constructed(whole));
    }
}

/// What comes of each of a run of functions.
pub open spec fn all_constructed(functions: Seq<FunctionView>) -> Seq<FunctionView> {
    functions.map_values(|function: FunctionView| constructed(function))
}

/// Put every function into SSA form.
pub fn construct(program: &mut Program)
    requires
        forall|i: int|
            0 <= i < old(program)@.functions.len() ==> constructible(
                #[trigger] old(program)@.functions[i],
            ),
    ensures
        final(program)@ == (ProgramView {
            functions: all_constructed(old(program)@.functions),
            ..old(program)@
        }),
{
    let ghost before = program@;
    let ghost whole = *program;
    let count: usize = program.functions.len();
    let mut i: usize = 0;
    while i < count
        invariant
            i <= count == program.functions@.len(),
            before.functions.len() == count,
            before == whole@,
            program.strings == whole.strings,
            program.texts == whole.texts,
            program.vtables == whole.vtables,
            program.table == whole.table,
            forall|k: int| 0 <= k < count ==> constructible(#[trigger] before.functions[k]),
            forall|k: int|
                0 <= k < i ==> (#[trigger] program.functions@[k])@ == constructed(
                    before.functions[k],
                ),
            forall|k: int|
                i <= k < count ==> (#[trigger] program.functions@[k])@ == before.functions[k],
        decreases count - i,
    {
        assert(program.functions@[i as int]@ == before.functions[i as int]);
        assert(constructible(before.functions[i as int]));
        construct_function(&mut program.functions[i]);
        i = i + 1;
    }
    assert(function_views(program.functions@) =~= all_constructed(before.functions));
}

} // verus!
