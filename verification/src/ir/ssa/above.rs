//! Why every read of a function in SSA form is of something written above it.
//!
//! What a variable goes by at a step was defined earlier in the block or in a block
//! that dominates it. Where the variable is read it goes by something, because a
//! function that reads only what was written has a definition on every way there.

use vstd::prelude::*;

use super::construct::construction_leaves_ssa_form;
use super::dom::{dominance_is_one_way, dominates, dominates_through, is_idom, Dominance};
use super::form::renamed_instr_is_the_same;
use super::meaning::{
    comes_down, construction_renames, entered_with, left_by, naming_at, one_definition_reaches,
    renamed_from, renaming_at, starts_about, wanted_are,
};
use super::place::{wanted, wants};
use super::rename::{
    constructed, constructible, handed, renamed_block, renamed_instr, renamed_instrs,
    renamed_params, renamed_term, renamed_value, renamed_values, tree_of, Renaming,
};
use crate::graph::{last_step, leads, way_up_to};
use crate::ir::block::{flow, reached, BlockView, TermView};
use crate::ir::func::{block_within, hands_nothing, well_formed, FunctionView};
use crate::ir::instr::{instr_within, InstrView};
use crate::ir::liveness::{
    exposed, live_after, live_at, live_through, live_where_exposed, reads_at, reads_only_written,
    writes, written_before,
};
use crate::ir::value::{value_within, VReg, Value};

verus! {

/// Whether a register is written before a step of a block: earlier in the block, or in
/// another one that every way to it goes through.
pub open spec fn written_above(blocks: Seq<BlockView>, b: int, k: int, reg: VReg) -> bool {
    ||| written_before(blocks[b], k, reg)
    ||| exists|d: int|
        0 <= d < blocks.len() && d != b && #[trigger] dominates(flow(blocks), d, b) && writes(
            blocks[d],
            reg,
        )
}

// -- where names come from --------------------------------------------------

/// What a variable goes by behind the parameters is one of them, or what it went by.
proof fn params_come_from(start: Renaming, variables: Seq<VReg>, n: int, v: int)
    requires
        0 <= n <= variables.len(),
        0 <= v < start.env.len(),
        forall|i: int| 0 <= i < variables.len() ==> (#[trigger] variables[i]).0 < start.env.len(),
    ensures
        ({
            let (params, at) = renamed_params(start, variables, n);
            &&& at.env.len() == start.env.len()
            &&& at.env[v] == start.env[v] || (at.env[v] is Some && params.contains(at.env[v]->0))
            &&& start.env[v] is Some ==> at.env[v] is Some
            &&& forall|i: int|
                0 <= i < n && (#[trigger] variables[i]).0 == v ==> at.env[v] is Some
        }),
    decreases n,
{
    if n > 0 {
        params_come_from(start, variables, n - 1, v);
        let (before, was) = renamed_params(start, variables, n - 1);
        let (params, at) = renamed_params(start, variables, n);
        assert(variables[n - 1].0 < start.env.len());
        if variables[n - 1].0 == v {
            assert(params[params.len() - 1] == was.names.fresh());
        } else if at.env[v] != start.env[v] {
            let i = choose|i: int| 0 <= i < before.len() && before[i] == at.env[v]->0;
            assert(params[i] == before[i]);
        }
    }
}

/// The instruction a step becomes.
spec fn step_renamed(start: Renaming, instrs: Seq<InstrView>, j: int) -> InstrView {
    renamed_instr(renamed_instrs(start, instrs, j).1, instrs[j]).0
}

/// What a variable goes by behind some instructions is written by one of them, or what
/// it went by.
proof fn names_come_from(start: Renaming, instrs: Seq<InstrView>, k: int, v: int)
    requires
        0 <= k <= instrs.len(),
        0 <= v < start.env.len(),
        v <= u32::MAX,
        forall|j: int|
            0 <= j < instrs.len() ==> instr_within(#[trigger] instrs[j], start.env.len()),
    ensures
        ({
            let at = renamed_instrs(start, instrs, k).1;
            &&& at.env.len() == start.env.len()
            &&& at.env[v] == start.env[v] || (exists|j: int|
                0 <= j < k && at.env[v] is Some && #[trigger] step_renamed(
                    start,
                    instrs,
                    j,
                ).written() == at.env[v])
            &&& start.env[v] is Some ==> at.env[v] is Some
            &&& forall|j: int|
                0 <= j < k && #[trigger] instrs[j].written() == Some(VReg(v as u32))
                    ==> at.env[v] is Some
        }),
    decreases k,
{
    if k > 0 {
        names_come_from(start, instrs, k - 1, v);
        let was = renamed_instrs(start, instrs, k - 1).1;
        let at = renamed_instrs(start, instrs, k).1;
        renamed_instr_is_the_same(was, instrs[k - 1]);
        assert(instr_within(instrs[k - 1], start.env.len()));
        assert(step_renamed(start, instrs, k - 1).written() == match instrs[k - 1].written() {
            Some(_) => Some(was.names.fresh()),
            None => None,
        });
        if instrs[k - 1].written() == Some(VReg(v as u32)) {
            assert(at.env[v] == Some(was.names.fresh()));
        } else {
            if let Some(reg) = instrs[k - 1].written() {
                assert(reg.0 != v);
            }
            assert(at.env[v] == was.env[v]);
        }
    }
}

/// What a variable goes by at a step was written above it.
proof fn names_are_above(
    function: FunctionView,
    after: FunctionView,
    tree: Dominance,
    starts: Seq<Renaming>,
    b: int,
    k: int,
    v: int,
    path: Seq<int>,
)
    requires
        well_formed(function),
        after.names.len() <= u32::MAX,
        tree.well_formed(),
        tree.graph == flow(function.blocks),
        flow(after.blocks) == flow(function.blocks),
        renamed_from(starts, function, after, tree, wanted(function, tree)),
        0 <= b < function.blocks.len(),
        0 <= k <= function.blocks[b].instrs.len(),
        0 <= v < function.names.len(),
        leads(tree.graph, path, 0, b),
        renaming_at(starts, function, wanted(function, tree), b, k).env[v] is Some,
    ensures
        written_above(
            after.blocks,
            b,
            k,
            renaming_at(starts, function, wanted(function, tree), b, k).env[v]->0,
        ),
    decreases path.len(),
{
    let graph = tree.graph;
    let lists = wanted(function, tree);
    let block = function.blocks[b];
    let entered = entered_with(starts, lists, b);
    let name = renaming_at(starts, function, lists, b, k).env[v]->0;
    assert(starts_about(starts[b], function.names.len()));
    assert(block_within(block, function.names.len(), function.blocks.len()));
    assert forall|i: int| 0 <= i < lists[b].len() implies (#[trigger] lists[b][i]).0
        < starts[b].env.len() by {}
    params_come_from(starts[b], lists[b], lists[b].len() as int, v);
    names_come_from(entered, block.instrs, k, v);
    assert(after.blocks[b] == renamed_block(starts[b], block, lists, b).0);
    if exists|j: int|
        0 <= j < k && #[trigger] step_renamed(entered, block.instrs, j).written() == Some(name) {
        let j = choose|j: int|
            0 <= j < k && #[trigger] step_renamed(entered, block.instrs, j).written() == Some(
                name,
            );
        naming_at(starts, function, after, tree, b, j);
        assert(after.blocks[b].instrs[j].written() == Some(name));
    } else if !after.blocks[b].params.contains(name) {
        assert(starts[b].env[v] == Some(name));
        assert(comes_down(starts, function, tree, lists, b, starts[b].env));
        let d = tree.idom[b];
        assert(0 <= tree.idom[b] < graph.len() && is_idom(graph, d, b));
        let last = function.blocks[d].instrs.len() as int;
        assert(left_by(starts, function, lists, d) == renaming_at(
            starts,
            function,
            lists,
            d,
            last,
        ).env);
        assert(path.contains(d));
        let at = choose|at: int| 0 <= at < path.len() && path[at] == d;
        assert(at < path.len() - 1);
        way_up_to(graph, path, 0, b, at);
        let up = path.subrange(0, at + 1);
        names_are_above(function, after, tree, starts, d, last, v, up);
        naming_at(starts, function, after, tree, d, last);
        if written_before(after.blocks[d], last, name) {
            assert(writes(after.blocks[d], name));
            assert(dominates(flow(after.blocks), d, b));
        } else {
            let e = choose|e: int|
                0 <= e < after.blocks.len() && e != d && #[trigger] dominates(
                    flow(after.blocks),
                    e,
                    d,
                ) && writes(after.blocks[e], name);
            dominates_through(graph, e, d, b);
            if e == b {
                dominance_is_one_way(graph, d, b, up);
            }
            assert(dominates(flow(after.blocks), e, b));
        }
    }
}

// -- where there is a name --------------------------------------------------

/// What is still read at the top of a block goes by something there.
proof fn live_is_named(
    function: FunctionView,
    after: FunctionView,
    tree: Dominance,
    starts: Seq<Renaming>,
    c: int,
    v: int,
    path: Seq<int>,
)
    requires
        well_formed(function),
        hands_nothing(function.blocks),
        reads_only_written(function),
        tree.well_formed(),
        tree.graph == flow(function.blocks),
        renamed_from(starts, function, after, tree, wanted(function, tree)),
        0 <= c < function.blocks.len(),
        0 <= v < function.names.len(),
        leads(tree.graph, path, 0, c),
        live_at(function.blocks, c, VReg(v as u32)),
    ensures
        entered_with(starts, wanted(function, tree), c).env[v] is Some,
    decreases path.len(),
{
    let graph = tree.graph;
    let blocks = function.blocks;
    let lists = wanted(function, tree);
    let reg = VReg(v as u32);
    if path.len() == 1 {
        assert(c == 0);
        assert(!live_at(blocks, 0, VReg(v as u32)));
    } else {
        assert(starts_about(starts[c], function.names.len()));
        assert forall|i: int| 0 <= i < lists[c].len() implies (#[trigger] lists[c][i]).0
            < starts[c].env.len() by {}
        params_come_from(starts[c], lists[c], lists[c].len() as int, v);
        wanted_are(function, tree, c, function.names.len() as int, v);
        if wants(function, tree, reg, c) {
            let i = choose|i: int| 0 <= i < lists[c].len() && lists[c][i] == reg;
            assert(lists[c][i].0 == v);
        } else {
            last_step(graph, path, 0, c);
            let b = path[path.len() - 2];
            assert(0 <= path[path.len() - 2] < graph.len());
            assert(graph[path[path.len() - 2]].contains(path[path.len() - 2 + 1]));
            one_definition_reaches(function, after, tree, starts, b, c, v);
            let block = blocks[b];
            let entered = entered_with(starts, lists, b);
            assert(starts_about(starts[b], function.names.len()));
            assert(block_within(block, function.names.len(), blocks.len()));
            assert forall|i: int| 0 <= i < lists[b].len() implies (#[trigger] lists[b][i]).0
                < starts[b].env.len() by {}
            params_come_from(starts[b], lists[b], lists[b].len() as int, v);
            names_come_from(entered, block.instrs, block.instrs.len() as int, v);
            assert(block.params.len() == 0);
            if writes(block, reg) {
                let j = choose|j: int|
                    0 <= j < block.instrs.len() && #[trigger] block.instrs[j].written() == Some(
                        reg,
                    );
                assert(block.instrs[j].written() == Some(VReg(v as u32)));
            } else {
                assert(flow(blocks)[b].contains(c));
                assert(live_after(blocks, b, reg));
                live_through(blocks, b, reg);
                live_is_named(function, after, tree, starts, b, v, path.drop_last());
            }
        }
    }
}

/// What is read at a step goes by something there.
proof fn read_is_named(
    function: FunctionView,
    after: FunctionView,
    tree: Dominance,
    starts: Seq<Renaming>,
    b: int,
    k: int,
    v: int,
    path: Seq<int>,
)
    requires
        well_formed(function),
        hands_nothing(function.blocks),
        reads_only_written(function),
        tree.well_formed(),
        tree.graph == flow(function.blocks),
        renamed_from(starts, function, after, tree, wanted(function, tree)),
        0 <= b < function.blocks.len(),
        0 <= k <= function.blocks[b].instrs.len(),
        0 <= v < function.names.len(),
        leads(tree.graph, path, 0, b),
        reads_at(function.blocks[b], k, VReg(v as u32)),
    ensures
        renaming_at(starts, function, wanted(function, tree), b, k).env[v] is Some,
{
    let blocks = function.blocks;
    let lists = wanted(function, tree);
    let block = blocks[b];
    let reg = VReg(v as u32);
    assert(starts_about(starts[b], function.names.len()));
    assert(block_within(block, function.names.len(), blocks.len()));
    assert forall|i: int| 0 <= i < lists[b].len() implies (#[trigger] lists[b][i]).0
        < starts[b].env.len() by {}
    params_come_from(starts[b], lists[b], lists[b].len() as int, v);
    names_come_from(entered_with(starts, lists, b), block.instrs, k, v);
    assert(block.params.len() == 0);
    if written_before(block, k, reg) {
        let j = choose|j: int| 0 <= j < k && #[trigger] block.instrs[j].written() == Some(reg);
        assert(block.instrs[j].written() == Some(VReg(v as u32)));
    } else {
        assert(exposed(block, reg));
        live_where_exposed(blocks, b, reg);
        live_is_named(function, after, tree, starts, b, v, path);
    }
}

/// What an ending reads once renamed is what one of its operands goes by, or what a
/// variable a successor wants goes by.
proof fn term_reads(env: Seq<Option<VReg>>, term: TermView, lists: Seq<Seq<VReg>>, reg: VReg)
    requires
        forall|i: int|
            0 <= i < term.targets().len() ==> (#[trigger] term.targets()[i]).args.len() == 0,
        renamed_term(env, term, lists).operands().contains(Value::Reg(reg)),
    ensures
        (exists|i: int|
            0 <= i < term.operands().len() && Value::Reg(reg) == renamed_value(
                env,
                #[trigger] term.operands()[i],
            )) || (exists|t: int, i: int|
            #![trigger lists[t][i]]
            0 <= i < lists[t].len() && (exists|k: int|
                0 <= k < term.targets().len() && (#[trigger] term.targets()[k]).block.0 == t)
                && Value::Reg(reg) == handed(env, lists[t][i])),
{
    let new = renamed_term(env, term, lists);
    let values = new.operands();
    let k = choose|k: int| 0 <= k < values.len() && values[k] == Value::Reg(reg);
    match term {
        TermView::Jump(target) => {
            assert(term.targets()[0] == target);
            let t = target.block.0 as int;
            assert(values =~= lists[t].map_values(|one: VReg| handed(env, one)));
            assert(Value::Reg(reg) == handed(env, lists[t][k]));
        },
        TermView::Branch { cond, then_blk, else_blk } => {
            assert(term.targets()[0] == then_blk);
            assert(term.targets()[1] == else_blk);
            let one = then_blk.block.0 as int;
            let other = else_blk.block.0 as int;
            let n = lists[one].len() as int;
            assert(term.operands() =~= seq![cond]);
            assert(values =~= seq![renamed_value(env, cond)] + lists[one].map_values(
                |one: VReg| handed(env, one),
            ) + lists[other].map_values(|one: VReg| handed(env, one)));
            if k == 0 {
                assert(Value::Reg(reg) == renamed_value(env, term.operands()[0]));
            } else if k < 1 + n {
                assert(Value::Reg(reg) == handed(env, lists[one][k - 1]));
            } else {
                assert(Value::Reg(reg) == handed(env, lists[other][k - 1 - n]));
            }
        },
        TermView::Return(value) => {
            if value is Some {
                assert(term.operands() =~= seq![value->0]);
                assert(values =~= seq![renamed_value(env, value->0)]);
                assert(Value::Reg(reg) == renamed_value(env, term.operands()[0]));
            }
        },
    }
}

/// **Every read is of what was written above it.** In a function put into SSA form,
/// what a step reads was written earlier in its block or in a block that every way to
/// it goes through, so long as the function read nothing that was not written.
pub proof fn construction_reads_what_is_above(function: FunctionView)
    requires
        constructible(function),
        reads_only_written(function),
    ensures
        forall|b: int, k: int, reg: VReg|
            0 <= b < constructed(function).blocks.len() && 0 <= k <= constructed(
                function,
            ).blocks[b].instrs.len() && #[trigger] reads_at(
                constructed(function).blocks[b],
                k,
                reg,
            ) ==> written_above(constructed(function).blocks, b, k, reg),
{
    let after = constructed(function);
    let tree = tree_of(function);
    let lists = wanted(function, tree);
    construction_leaves_ssa_form(function);
    let starts = construction_renames(function);
    assert forall|b: int, k: int, reg: VReg|
        0 <= b < after.blocks.len() && 0 <= k <= after.blocks[b].instrs.len()
            && #[trigger] reads_at(after.blocks[b], k, reg) implies written_above(after.blocks, b, k, reg) by {
        let block = function.blocks[b];
        let env = renaming_at(starts, function, lists, b, k).env;
        assert(reached(function.blocks, b));
        let path = choose|path: Seq<int>| leads(tree.graph, path, 0, b);
        assert(block_within(block, function.names.len(), function.blocks.len()));
        naming_at(starts, function, after, tree, b, k);
        let values = if k < block.instrs.len() {
            block.instrs[k].operands()
        } else {
            block.term.operands()
        };
        if k < block.instrs.len() {
            renamed_instr_is_the_same(
                renaming_at(starts, function, lists, b, k),
                block.instrs[k],
            );
            let others = renamed_values(env, values);
            let i = choose|i: int| 0 <= i < others.len() && others[i] == Value::Reg(reg);
            assert(Value::Reg(reg) == renamed_value(env, values[i]));
            assert(instr_within(block.instrs[k], function.names.len()));
            assert(value_within(values[i], function.names.len()));
        } else {
            assert(after.blocks[b] == renamed_block(starts[b], block, lists, b).0);
            assert(after.blocks[b].term == renamed_term(env, block.term, lists));
            assert(block.params.len() == 0);
            term_reads(env, block.term, lists, reg);
        }
        if exists|i: int|
            0 <= i < values.len() && Value::Reg(reg) == renamed_value(
                env,
                #[trigger] values[i],
            ) {
            let i = choose|i: int|
                0 <= i < values.len() && Value::Reg(reg) == renamed_value(
                    env,
                    #[trigger] values[i],
                );
            assert(value_within(values[i], function.names.len()));
            let variable = values[i]->Reg_0;
            let v = variable.0 as int;
            assert(variable == VReg(v as u32));
            assert(values.contains(Value::Reg(VReg(v as u32))));
            assert(reads_at(block, k, VReg(v as u32)));
            read_is_named(function, after, tree, starts, b, k, v, path);
            names_are_above(function, after, tree, starts, b, k, v, path);
        } else {
            let (t, i) = choose|t: int, i: int|
                #![trigger lists[t][i]]
                0 <= i < lists[t].len() && (exists|k: int|
                    0 <= k < block.term.targets().len() && (
                    #[trigger] block.term.targets()[k]).block.0 == t) && Value::Reg(reg) == handed(
                    env,
                    lists[t][i],
                );
            let v = lists[t][i].0 as int;
            assert(0 <= t < lists.len()) by {
                let n = choose|n: int|
                    0 <= n < block.term.targets().len() && (
                    #[trigger] block.term.targets()[n]).block.0 == t;
                assert(block.term.targets()[n].block.0 < function.blocks.len());
            }
            assert(v < function.names.len());
            names_are_above(function, after, tree, starts, b, k, v, path);
        }
    }
}

} // verus!
