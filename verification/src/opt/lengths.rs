//! Lengths a pass never works out.
//!
//! The length of a list or a string is asked for where it is needed, and what is
//! asked is never known. So an index that is looked at when the program runs goes
//! on being looked at, unless it is in range.

use vstd::prelude::*;

use super::facts::{
    analysed, comes_from, entry_of, evaluated, gathered, known_of, round_before, rounds,
    rounds_settle, speaks_of, transfer_keeps_count, transferred, Analysis, Facts,
};
use super::meaning::{is_param, params_apart, rewriting_knows_the_same, rewritten_at};
use super::rewrite::{
    folded_operands, known_replaced, propagated, rewritten_block, rewritten_instr, substituted,
};
use super::runs::{operands_twice, ssa_form_params_apart};
use crate::graph::{leads, reaches, way_up_to};
use crate::ir::block::{flow, renumbered, BlockView};
use crate::ir::deeds::{asked, is_deed, length_is_asked, lengths_are_asked};
use crate::ir::func::{block_within, position_taken, well_formed, FunctionView};
use crate::ir::instr::{instr_within, InstrView};
use crate::ir::ssa::construct::construction_leaves_ssa_form;
use crate::ir::ssa::dom::{is_idom, predecessors_are};
use crate::ir::ssa::form::{defined_once, definitions, results};
use crate::ir::ssa::meaning::{
    comes_down, construction_renames, naming_at, renamed_from, renaming_at, starts_about,
};
use crate::ir::ssa::place::wanted;
use crate::ir::ssa::rename::{
    constructed, constructible, renamed_block, renamed_instr, renamed_params, renamed_value,
    renamed_values, tree_of, Renaming,
};
use crate::ir::value::{value_within, BlockId, VReg, Value};

verus! {

/// Whether nothing is known of a register.
pub open spec fn is_open(facts: Facts, r: int) -> bool {
    facts[r] is Some ==> facts[r]->0 is Unknown
}

proof fn asking_tells_nothing(instr: InstrView, facts: Facts)
    requires
        is_deed(instr),
    ensures
        evaluated(instr, facts) is Unknown,
{
}

proof fn transfer_leaves_open(facts: Facts, function: FunctionView, b: int, n: int, r: int)
    requires
        well_formed(function),
        0 <= b < function.blocks.len(),
        0 <= n <= function.blocks[b].instrs.len(),
        facts.len() == function.names.len(),
        0 <= r < facts.len(),
        asked(function.blocks, VReg(r as u32)),
        is_open(facts, r),
    ensures
        transferred(facts, function.blocks[b].instrs, n).len() == facts.len(),
        is_open(transferred(facts, function.blocks[b].instrs, n), r),
    decreases n,
{
    if n > 0 {
        let instrs = function.blocks[b].instrs;
        transfer_leaves_open(facts, function, b, n - 1, r);
        assert(block_within(function.blocks[b], function.names.len(), function.blocks.len()));
        assert(instr_within(function.blocks[b].instrs[n - 1], function.names.len()));
        transfer_keeps_count(facts, instrs, n);
        let before = transferred(facts, instrs, n - 1);
        if let Some(dst) = instrs[n - 1].written() {
            if r == dst.0 {
                assert(dst == VReg(r as u32));
                assert(is_deed(function.blocks[b].instrs[n - 1]));
                asking_tells_nothing(instrs[n - 1], before);
            }
        }
    }
}

proof fn gathering_leaves_open(
    start: Facts,
    exits: Seq<Facts>,
    into: Seq<BlockId>,
    n: int,
    registers: nat,
    r: int,
)
    requires
        0 <= n <= into.len(),
        0 <= r < registers,
        start.len() == registers,
        forall|k: int|
            0 <= k < into.len() ==> exits[(#[trigger] into[k]).0 as int].len() == registers
                && is_open(exits[into[k].0 as int], r),
        is_open(start, r),
    ensures
        gathered(start, exits, into, n).len() == registers,
        is_open(gathered(start, exits, into, n), r),
    decreases n,
{
    if n > 0 {
        gathering_leaves_open(start, exits, into, n - 1, registers, r);
        let other = exits[into[n - 1].0 as int];
        assert(other.len() == registers && is_open(other, r));
    }
}

spec fn leaves_open(at: Analysis, blocks: nat, r: int) -> bool {
    &&& forall|b: int| 0 <= b < blocks ==> is_open(#[trigger] at.entries[b], r)
    &&& forall|b: int| 0 <= b < blocks ==> is_open(#[trigger] at.exits[b], r)
}

proof fn round_leaves_open(function: FunctionView, at: Analysis, n: int, r: int)
    requires
        well_formed(function),
        0 <= n <= function.blocks.len(),
        0 <= r < function.names.len(),
        asked(function.blocks, VReg(r as u32)),
        speaks_of(at, function.blocks.len(), function.names.len()),
        leaves_open(at, function.blocks.len(), r),
    ensures
        speaks_of(
            round_before(function.blocks, at, n),
            function.blocks.len(),
            function.names.len(),
        ),
        leaves_open(round_before(function.blocks, at, n), function.blocks.len(), r),
    decreases n,
{
    if n > 0 {
        let blocks = function.blocks;
        let b = n - 1;
        round_leaves_open(function, at, b, r);
        let before = round_before(blocks, at, b);
        let into = comes_from(blocks, b);
        predecessors_are(flow(blocks), b, blocks.len() as int);
        assert forall|k: int| 0 <= k < into.len() implies before.exits[(
        #[trigger] into[k]).0 as int].len() == function.names.len() && is_open(
            before.exits[into[k].0 as int],
            r,
        ) by {
            assert(into[k].0 < blocks.len());
        }
        let entry = entry_of(blocks, before, b);
        gathering_leaves_open(
            before.entries[b],
            before.exits,
            into,
            into.len() as int,
            function.names.len(),
            r,
        );
        transfer_leaves_open(entry, function, b, blocks[b].instrs.len() as int, r);
        assert(block_within(blocks[b], function.names.len(), blocks.len()));
    }
}

proof fn rounds_leave_open(function: FunctionView, n: nat, r: int)
    requires
        well_formed(function),
        0 <= r < function.names.len(),
        asked(function.blocks, VReg(r as u32)),
    ensures
        speaks_of(rounds(function, n), function.blocks.len(), function.names.len()),
        leaves_open(rounds(function, n), function.blocks.len(), r),
    decreases n,
{
    if n > 0 {
        rounds_leave_open(function, (n - 1) as nat, r);
        round_leaves_open(
            function,
            rounds(function, (n - 1) as nat),
            function.blocks.len() as int,
            r,
        );
    }
}

/// **A length that is asked for is never known.**
pub proof fn asked_is_never_known(function: FunctionView, b: int, k: int, reg: VReg)
    requires
        well_formed(function),
        0 <= b < function.blocks.len(),
        0 <= k <= function.blocks[b].instrs.len(),
        reg.0 < function.names.len(),
        asked(function.blocks, reg),
    ensures
        known_of(
            Value::Reg(reg),
            transferred(analysed(function).entries[b], function.blocks[b].instrs, k),
        ) is Unknown,
{
    let at = analysed(function);
    let r = reg.0 as int;
    assert(reg == VReg(r as u32));
    rounds_settle(function);
    let n = choose|n: nat| at == #[trigger] rounds(function, n);
    rounds_leave_open(function, n, r);
    transfer_leaves_open(at.entries[b], function, b, k, r);
}

/// What asks goes on asking.
proof fn rewritten_asks(instr: InstrView, facts: Facts)
    requires
        is_deed(instr),
    ensures
        is_deed(rewritten_instr(instr, facts).0),
        rewritten_instr(instr, facts).0 == substituted(instr, facts),
{
    let operands = folded_operands(instr, facts);
    operands_twice(instr, operands, operands);
    asking_tells_nothing(substituted(instr, facts), facts);
}

/// Propagation goes on asking for what was asked for.
pub proof fn propagating_keeps_lengths_asked(function: FunctionView)
    requires
        well_formed(function),
        lengths_are_asked(function.blocks),
    ensures
        lengths_are_asked(propagated(function).blocks),
{
    let blocks = function.blocks;
    let middle = known_replaced(function).blocks;
    let after = propagated(function).blocks;
    let entries = analysed(function).entries;
    assert forall|b: int, k: int|
        #![trigger after[b].instrs[k]]
        0 <= b < after.len() && 0 <= k < after[b].instrs.len() implies length_is_asked(
        after,
        after[b].instrs[k],
    ) by {
        let at = position_taken(middle, middle.len() as int, b);
        assert(after[b] == renumbered(middle, at));
        assert(middle[at] == rewritten_block(blocks[at], entries[at]));
        let instrs = blocks[at].instrs;
        rewriting_knows_the_same(entries[at], instrs, instrs.len() as int);
        rewritten_at(entries[at], instrs, instrs.len() as int, k);
        let facts = transferred(entries[at], instrs, k);
        if let InstrView::Elem { len: Value::Reg(reg), .. } = after[b].instrs[k] {
            assert(instrs[k] is Elem) by {
                if is_deed(instrs[k]) {
                    rewritten_asks(instrs[k], facts);
                }
            }
            rewritten_asks(instrs[k], facts);
            assert(length_is_asked(blocks, blocks[at].instrs[k]));
            assert(asked(blocks, reg));
            still_asked(function, reg);
        }
    }
}

proof fn still_asked(function: FunctionView, reg: VReg)
    requires
        well_formed(function),
        asked(function.blocks, reg),
    ensures
        asked(propagated(function).blocks, reg),
{
    let blocks = function.blocks;
    let middle = known_replaced(function).blocks;
    let after = propagated(function).blocks;
    let entries = analysed(function).entries;
    assert forall|b: int, k: int|
        #![trigger after[b].instrs[k]]
        0 <= b < after.len() && 0 <= k < after[b].instrs.len() && after[b].instrs[k].written()
            == Some(reg) implies is_deed(after[b].instrs[k]) by {
        let at = position_taken(middle, middle.len() as int, b);
        assert(after[b] == renumbered(middle, at));
        assert(middle[at] == rewritten_block(blocks[at], entries[at]));
        let instrs = blocks[at].instrs;
        rewriting_knows_the_same(entries[at], instrs, instrs.len() as int);
        rewritten_at(entries[at], instrs, instrs.len() as int, k);
        let facts = transferred(entries[at], instrs, k);
        super::runs::rewritten_keeps_kind(instrs[k], facts);
        assert(blocks[at].instrs[k].written() == Some(reg));
        rewritten_asks(instrs[k], facts);
    }
}

// -- going into SSA form ----------------------------------------------------

/// Where what an instruction writes is listed.
proof fn written_is_listed(instrs: Seq<InstrView>, n: int, k: int)
    requires
        0 <= k < n <= instrs.len(),
        instrs[k].written() is Some,
    ensures
        results(instrs, k).len() < results(instrs, n).len(),
        results(instrs, n)[results(instrs, k).len() as int] == instrs[k].written()->0,
    decreases n,
{
    if k < n - 1 {
        written_is_listed(instrs, n - 1, k);
    }
}

/// What one thing asks for, and nothing else defines, is asked for.
proof fn asked_once(blocks: Seq<BlockView>, b: int, k: int)
    requires
        defined_once(blocks),
        0 <= b < blocks.len(),
        0 <= k < blocks[b].instrs.len(),
        blocks[b].instrs[k].written() is Some,
        is_deed(blocks[b].instrs[k]),
    ensures
        asked(blocks, blocks[b].instrs[k].written()->0),
{
    let reg = blocks[b].instrs[k].written()->0;
    let n = blocks[b].instrs.len() as int;
    let i = blocks[b].params.len() + results(blocks[b].instrs, k).len();
    written_is_listed(blocks[b].instrs, n, k);
    assert(definitions(blocks[b])[i as int] == reg);
    assert forall|c: int, j: int|
        #![trigger blocks[c].instrs[j]]
        0 <= c < blocks.len() && 0 <= j < blocks[c].instrs.len() && blocks[c].instrs[j].written()
            == Some(reg) implies is_deed(blocks[c].instrs[j]) by {
        let m = blocks[c].params.len() + results(blocks[c].instrs, j).len();
        written_is_listed(blocks[c].instrs, blocks[c].instrs.len() as int, j);
        assert(definitions(blocks[c])[m as int] == reg);
        assert(b == c && i == m);
        if j < k {
            written_is_listed(blocks[b].instrs, k, j);
        } else if k < j {
            written_is_listed(blocks[b].instrs, j, k);
        }
    }
}

/// What a block is handed, no instruction writes.
proof fn handed_is_asked(blocks: Seq<BlockView>, b: int, i: int)
    requires
        params_apart(blocks),
        0 <= b < blocks.len(),
        0 <= i < blocks[b].params.len(),
    ensures
        asked(blocks, blocks[b].params[i]),
{
    let reg = blocks[b].params[i];
    assert(blocks[b].params.contains(reg));
    assert(is_param(blocks, reg));
}

/// What a variable goes by once a block has taken its parameters.
proof fn entered_by(start: Renaming, variables: Seq<VReg>, n: int, v: int)
    requires
        0 <= n <= variables.len(),
        0 <= v < start.env.len(),
        forall|i: int| 0 <= i < variables.len() ==> (#[trigger] variables[i]).0 < start.env.len(),
    ensures
        ({
            let (params, at) = renamed_params(start, variables, n);
            &&& params.len() == n
            &&& at.env.len() == start.env.len()
            &&& at.env[v] == start.env[v] || exists|i: int|
                0 <= i < n && at.env[v] == Some(#[trigger] params[i])
        }),
    decreases n,
{
    if n > 0 {
        entered_by(start, variables, n - 1, v);
        let (before, was) = renamed_params(start, variables, n - 1);
        let (params, at) = renamed_params(start, variables, n);
        assert(variables[n - 1].0 < start.env.len());
        if variables[n - 1].0 == v {
            assert(at.env[v] == Some(params[n - 1]));
        } else if was.env[v] != start.env[v] {
            let i = choose|i: int| 0 <= i < n - 1 && was.env[v] == Some(#[trigger] before[i]);
            assert(params[i] == before[i]);
        }
    }
}

/// A renamed instruction asks where the instruction does.
#[verifier::spinoff_prover]
proof fn renamed_asks(start: Renaming, instr: InstrView)
    ensures
        is_deed(renamed_instr(start, instr).0) == is_deed(instr),
        instr.written() is Some ==> renamed_instr(start, instr).0.written() == Some(
            start.names.fresh(),
        ),
        instr.written() is None ==> renamed_instr(start, instr).0.written() is None,
{
}

/// What a variable that is asked for goes by is asked for.
proof fn goes_by_what_is_asked(
    starts: Seq<Renaming>,
    function: FunctionView,
    b: int,
    k: int,
    v: int,
    path: Seq<int>,
)
    requires
        constructible(function),
        renamed_from(
            starts,
            function,
            constructed(function),
            tree_of(function),
            wanted(function, tree_of(function)),
        ),
        tree_of(function).well_formed(),
        tree_of(function).graph == flow(function.blocks),
        defined_once(constructed(function).blocks),
        params_apart(constructed(function).blocks),
        0 <= b < function.blocks.len(),
        0 <= k <= function.blocks[b].instrs.len(),
        0 <= v < function.names.len() <= u32::MAX,
        asked(function.blocks, VReg(v as u32)),
        leads(flow(function.blocks), path, 0, b),
    ensures
        renaming_at(
            starts,
            function,
            wanted(function, tree_of(function)),
            b,
            k,
        ).env[v] matches Some(name) ==> asked(constructed(function).blocks, name),
    decreases path.len(), k,
{
    let after = constructed(function);
    let tree = tree_of(function);
    let lists = wanted(function, tree);
    let block = function.blocks[b];
    naming_at(starts, function, after, tree, b, k);
    assert(block_within(block, function.names.len(), function.blocks.len()));
    if k > 0 {
        let at = renaming_at(starts, function, lists, b, k - 1);
        let instr = block.instrs[k - 1];
        naming_at(starts, function, after, tree, b, k - 1);
        goes_by_what_is_asked(starts, function, b, k - 1, v, path);
        renamed_asks(at, instr);
        assert(instr_within(block.instrs[k - 1], function.names.len()));
        if let Some(reg) = instr.written() {
            if reg.0 == v {
                assert(reg == VReg(v as u32));
                assert(is_deed(function.blocks[b].instrs[k - 1]));
                asked_once(after.blocks, b, k - 1);
            }
        }
    } else {
        let start = starts[b];
        assert(starts_about(starts[b], function.names.len()));
        assert forall|i: int| 0 <= i < lists[b].len() implies (#[trigger] lists[b][i]).0
            < start.env.len() by {}
        entered_by(start, lists[b], lists[b].len() as int, v);
        let (params, entered) = renamed_params(start, lists[b], lists[b].len() as int);
        assert(after.blocks[b] == renamed_block(starts[b], block, lists, b).0);
        assert(after.blocks[b].params == params);
        if entered.env[v] != start.env[v] {
            let i = choose|i: int|
                0 <= i < params.len() && entered.env[v] == Some(#[trigger] params[i]);
            handed_is_asked(after.blocks, b, i);
        } else {
            assert(comes_down(starts, function, tree, lists, b, starts[b].env));
            if b != 0 {
                let p = tree.idom[b];
                assert(0 <= tree.idom[b] < tree.graph.len() && is_idom(tree.graph, p, b));
                assert(path.contains(p));
                let j = choose|j: int| 0 <= j < path.len() && path[j] == p;
                way_up_to(tree.graph, path, 0, b, j);
                goes_by_what_is_asked(
                    starts,
                    function,
                    p,
                    function.blocks[p].instrs.len() as int,
                    v,
                    path.subrange(0, j + 1),
                );
            }
        }
    }
}

/// No instruction of a renamed function writes a register there was.
proof fn nothing_old_is_written(starts: Seq<Renaming>, function: FunctionView, reg: VReg)
    requires
        constructible(function),
        renamed_from(
            starts,
            function,
            constructed(function),
            tree_of(function),
            wanted(function, tree_of(function)),
        ),
        reg.0 < function.names.len(),
    ensures
        asked(constructed(function).blocks, reg),
{
    let after = constructed(function);
    let tree = tree_of(function);
    let lists = wanted(function, tree);
    assert forall|b: int, k: int|
        #![trigger after.blocks[b].instrs[k]]
        0 <= b < after.blocks.len() && 0 <= k < after.blocks[b].instrs.len()
            && after.blocks[b].instrs[k].written() == Some(reg) implies is_deed(
        after.blocks[b].instrs[k],
    ) by {
        naming_at(starts, function, after, tree, b, 0);
        naming_at(starts, function, after, tree, b, k);
        renamed_asks(renaming_at(starts, function, lists, b, k), function.blocks[b].instrs[k]);
    }
}

/// Going into SSA form goes on asking for the lengths that were asked for.
pub proof fn construction_keeps_lengths_asked(function: FunctionView)
    requires
        constructible(function),
        lengths_are_asked(function.blocks),
    ensures
        lengths_are_asked(constructed(function).blocks),
{
    let after = constructed(function);
    let tree = tree_of(function);
    let lists = wanted(function, tree);
    let starts = construction_renames(function);
    construction_leaves_ssa_form(function);
    ssa_form_params_apart(after.blocks);
    assert forall|b: int, k: int|
        #![trigger after.blocks[b].instrs[k]]
        0 <= b < after.blocks.len() && 0 <= k < after.blocks[b].instrs.len() implies length_is_asked(
        after.blocks,
        after.blocks[b].instrs[k],
    ) by {
        naming_at(starts, function, after, tree, b, 0);
        naming_at(starts, function, after, tree, b, k);
        let at = renaming_at(starts, function, lists, b, k);
        let instr = function.blocks[b].instrs[k];
        let renamed = after.blocks[b].instrs[k];
        assert(block_within(function.blocks[b], function.names.len(), function.blocks.len()));
        assert(instr_within(function.blocks[b].instrs[k], function.names.len()));
        assert(length_is_asked(function.blocks, function.blocks[b].instrs[k]));
        if let InstrView::Elem { len: Value::Reg(name), .. } = renamed {
            length_renamed(at, instr);
            let reg = instr->Elem_len->Reg_0;
            assert(value_within(instr.operands()[2], function.names.len()));
            assert(reg == VReg(reg.0 as int as u32));
            if at.env[reg.0 as int] is Some {
                let path = choose|path: Seq<int>| leads(tree.graph, path, 0, b);
                assert(reaches(tree.graph, 0, b));
                goes_by_what_is_asked(starts, function, b, k, reg.0 as int, path);
            } else {
                nothing_old_is_written(starts, function, reg);
            }
        }
    }
}

/// The length of a renamed index is the renamed length.
#[verifier::spinoff_prover]
proof fn length_renamed(start: Renaming, instr: InstrView)
    requires
        renamed_instr(start, instr).0 matches InstrView::Elem { len, .. } && len is Reg,
    ensures
        instr matches InstrView::Elem { len, .. } && len is Reg && (
        renamed_instr(start, instr).0)->Elem_len == renamed_value(start.env, len),
{
    let others = renamed_values(start.env, instr.operands());
    match instr {
        InstrView::Elem { len, .. } => {
            assert(instr.operands()[2] == len);
            assert(others[2] == renamed_value(start.env, len));
        },
        _ => {},
    }
}

} // verus!
