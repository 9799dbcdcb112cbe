//! That leaving out what nothing calls changes no call.

use vstd::prelude::*;

use super::calls::{
    call_graph, called_flags, called_only, calls_of, calls_of_blocks, calls_of_instr,
    calls_of_instrs, is_call_graph, new_id, renamed_function,
};
use super::program::{call_is_among, function_found, kept_length};
use crate::graph::{raised_before, raised_before_grows, reaches, reaches_further};
use crate::ir::block::BlockView;
use crate::ir::func::FunctionView;
use crate::ir::instr::InstrView;
use crate::ir::value::FuncId;

verus! {

/// Whether two functions are one but for the numbers they call others by.
pub open spec fn same_but_for_calls(a: FunctionView, b: FunctionView) -> bool {
    &&& a.name == b.name
    &&& a.params == b.params
    &&& a.ret == b.ret
    &&& a.frame_bytes == b.frame_bytes
    &&& a.names == b.names
    &&& a.blocks.len() == b.blocks.len()
    &&& forall|i: int|
        #![trigger a.blocks[i]]
        0 <= i < a.blocks.len() ==> {
            &&& a.blocks[i].kind == b.blocks[i].kind
            &&& a.blocks[i].params == b.blocks[i].params
            &&& a.blocks[i].index == b.blocks[i].index
            &&& a.blocks[i].term == b.blocks[i].term
            &&& a.blocks[i].instrs.len() == b.blocks[i].instrs.len()
            &&& forall|k: int|
                #![trigger a.blocks[i].instrs[k]]
                0 <= k < a.blocks[i].instrs.len() ==> (if b.blocks[i].instrs[k] is Call {
                    &&& a.blocks[i].instrs[k] is Call
                    &&& a.blocks[i].instrs[k]->Call_dst == b.blocks[i].instrs[k]->Call_dst
                    &&& a.blocks[i].instrs[k]->Call_args == b.blocks[i].instrs[k]->Call_args
                } else {
                    a.blocks[i].instrs[k] == b.blocks[i].instrs[k]
                })
        }
}

proof fn renamed_is_the_same(function: FunctionView, flags: Seq<bool>)
    ensures
        same_but_for_calls(renamed_function(function, flags), function),
{
}

/// Where a function that is called is kept.
proof fn called_is_kept(
    functions: Seq<FunctionView>,
    vtables: Seq<Seq<FuncId>>,
    entry: FuncId,
    f: int,
) -> (at: int)
    requires
        functions.len() <= u32::MAX,
        0 <= f < functions.len(),
        reaches(call_graph(functions, vtables), entry.0 as int, f),
    ensures
        ({
            let flags = called_flags(functions, vtables, entry);
            let (kept, _) = called_only(functions, vtables, Some(entry));
            &&& 0 <= at < kept.len()
            &&& at == new_id(flags, FuncId(f as u32)).0
            &&& kept[at] == renamed_function(functions[f], flags)
        }),
{
    let flags = called_flags(functions, vtables, entry);
    let n = functions.len() as int;
    function_found(functions, flags, n, f);
    kept_length(functions, flags, n);
    raised_before_grows(flags, 0, n);
    raised_before(flags, f) as int
}

/// **A call still calls the function it did.** Of a function that can be called from the
/// entry point, what is kept does what the function did, in the same places; and each of
/// its calls, by whatever number it now goes, names the function it named before.
pub proof fn calls_name_what_they_did(
    functions: Seq<FunctionView>,
    vtables: Seq<Seq<FuncId>>,
    entry: FuncId,
    f: int,
    b: int,
    k: int,
) -> (at: int)
    requires
        is_call_graph(functions, vtables, Some(entry)),
        0 <= f < functions.len(),
        reaches(call_graph(functions, vtables), entry.0 as int, f),
        0 <= b < functions[f].blocks.len(),
        0 <= k < functions[f].blocks[b].instrs.len(),
        functions[f].blocks[b].instrs[k] is Call,
    ensures
        ({
            let (kept, _) = called_only(functions, vtables, Some(entry));
            let callee = functions[f].blocks[b].instrs[k]->Call_callee.0 as int;
            &&& 0 <= at < kept.len()
            &&& same_but_for_calls(kept[at], functions[f])
            &&& 0 <= callee < functions.len()
            &&& kept[at].blocks[b].instrs[k] is Call
            &&& kept[at].blocks[b].instrs[k]->Call_callee.0 < kept.len()
            &&& same_but_for_calls(
                kept[kept[at].blocks[b].instrs[k]->Call_callee.0 as int],
                functions[callee],
            )
        }),
{
    let graph = call_graph(functions, vtables);
    let flags = called_flags(functions, vtables, entry);
    let callee = functions[f].blocks[b].instrs[k]->Call_callee.0 as int;
    let at = called_is_kept(functions, vtables, entry, f);
    let blocks = functions[f].blocks;
    call_is_among(blocks, vtables, blocks.len() as int, b, k);
    assert(graph[f] == calls_of(functions[f], vtables));
    let i = choose|i: int| 0 <= i < graph[f].len() && graph[f][i] == callee;
    assert(0 <= graph[f][i] < graph.len());
    reaches_further(graph, entry.0 as int, f, callee);
    let to = called_is_kept(functions, vtables, entry, callee);
    renamed_is_the_same(functions[f], flags);
    renamed_is_the_same(functions[callee], flags);
    at
}

/// What a table holds is among what making an object of its class makes callable.
proof fn table_is_among(
    blocks: Seq<BlockView>,
    vtables: Seq<Seq<FuncId>>,
    n: int,
    b: int,
    k: int,
    slot: int,
)
    requires
        0 <= b < n <= blocks.len(),
        0 <= k < blocks[b].instrs.len(),
        blocks[b].instrs[k] is VTable,
        0 <= slot < vtables[blocks[b].instrs[k]->VTable_class.0 as int].len(),
    ensures
        calls_of_blocks(blocks, vtables, n).contains(
            vtables[blocks[b].instrs[k]->VTable_class.0 as int][slot].0 as int,
        ),
    decreases n,
{
    let callee = vtables[blocks[b].instrs[k]->VTable_class.0 as int][slot].0 as int;
    let before = calls_of_blocks(blocks, vtables, n - 1);
    let instrs = blocks[n - 1].instrs;
    let here = calls_of_instrs(instrs, vtables, instrs.len() as int);
    if b < n - 1 {
        table_is_among(blocks, vtables, n - 1, b, k, slot);
        let i = choose|i: int| 0 <= i < before.len() && before[i] == callee;
        assert((before + here)[i] == callee);
    } else {
        table_is_here(instrs, vtables, instrs.len() as int, k, slot);
        let i = choose|i: int| 0 <= i < here.len() && here[i] == callee;
        assert((before + here)[before.len() + i] == callee);
    }
}

proof fn table_is_here(
    instrs: Seq<InstrView>,
    vtables: Seq<Seq<FuncId>>,
    n: int,
    k: int,
    slot: int,
)
    requires
        0 <= k < n <= instrs.len(),
        instrs[k] is VTable,
        0 <= slot < vtables[instrs[k]->VTable_class.0 as int].len(),
    ensures
        calls_of_instrs(instrs, vtables, n).contains(
            vtables[instrs[k]->VTable_class.0 as int][slot].0 as int,
        ),
    decreases n,
{
    let callee = vtables[instrs[k]->VTable_class.0 as int][slot].0 as int;
    let before = calls_of_instrs(instrs, vtables, n - 1);
    let one = calls_of_instr(instrs[n - 1], vtables);
    if k < n - 1 {
        table_is_here(instrs, vtables, n - 1, k, slot);
        let i = choose|i: int| 0 <= i < before.len() && before[i] == callee;
        assert((before + one)[i] == callee);
    } else {
        assert(one[slot] == callee);
        assert((before + one)[before.len() + slot] == callee);
    }
}

/// **A table still holds the functions it did.** Of a class that an object is made of in a
/// function that can be called, every slot holds, by whatever number it now goes, the
/// function it held before.
pub proof fn tables_hold_what_they_did(
    functions: Seq<FunctionView>,
    vtables: Seq<Seq<FuncId>>,
    entry: FuncId,
    f: int,
    b: int,
    k: int,
    slot: int,
)
    requires
        is_call_graph(functions, vtables, Some(entry)),
        0 <= f < functions.len(),
        reaches(call_graph(functions, vtables), entry.0 as int, f),
        0 <= b < functions[f].blocks.len(),
        0 <= k < functions[f].blocks[b].instrs.len(),
        functions[f].blocks[b].instrs[k] is VTable,
        0 <= slot < vtables[functions[f].blocks[b].instrs[k]->VTable_class.0 as int].len(),
    ensures
        ({
            let (kept, tables) = called_only(functions, vtables, Some(entry));
            let class = functions[f].blocks[b].instrs[k]->VTable_class.0 as int;
            &&& tables.len() == vtables.len()
            &&& tables[class].len() == vtables[class].len()
            &&& tables[class][slot].0 < kept.len()
            &&& vtables[class][slot].0 < functions.len()
            &&& same_but_for_calls(
                kept[tables[class][slot].0 as int],
                functions[vtables[class][slot].0 as int],
            )
        }),
{
    let graph = call_graph(functions, vtables);
    let flags = called_flags(functions, vtables, entry);
    let class = functions[f].blocks[b].instrs[k]->VTable_class.0 as int;
    let callee = vtables[class][slot].0 as int;
    let blocks = functions[f].blocks;
    assert(super::calls::makes_known_classes(functions[f], vtables.len()));
    table_is_among(blocks, vtables, blocks.len() as int, b, k, slot);
    assert(graph[f] == calls_of(functions[f], vtables));
    let i = choose|i: int| 0 <= i < graph[f].len() && graph[f][i] == callee;
    assert(0 <= graph[f][i] < graph.len());
    reaches_further(graph, entry.0 as int, f, callee);
    let to = called_is_kept(functions, vtables, entry, callee);
    renamed_is_the_same(functions[callee], flags);
}

/// **What can be called stays in the order it was, and nothing else stays.**
pub proof fn only_what_is_called_is_kept(
    functions: Seq<FunctionView>,
    vtables: Seq<Seq<FuncId>>,
    entry: FuncId,
    f: int,
    g: int,
)
    requires
        functions.len() <= u32::MAX,
        0 <= f < g < functions.len(),
        reaches(call_graph(functions, vtables), entry.0 as int, f),
        reaches(call_graph(functions, vtables), entry.0 as int, g),
    ensures
        exists|a: int, b: int|
            0 <= a < b < called_only(functions, vtables, Some(entry)).0.len()
                && same_but_for_calls(
                #[trigger] called_only(functions, vtables, Some(entry)).0[a],
                functions[f],
            ) && same_but_for_calls(
                #[trigger] called_only(functions, vtables, Some(entry)).0[b],
                functions[g],
            ),
{
    let flags = called_flags(functions, vtables, entry);
    let kept = called_only(functions, vtables, Some(entry)).0;
    let a = called_is_kept(functions, vtables, entry, f);
    let b = called_is_kept(functions, vtables, entry, g);
    raised_before_grows(flags, f, g);
    raised_before_grows(flags, 0, functions.len() as int);
    raised_before_grows(flags, 0, f);
    raised_before_grows(flags, 0, g);
    renamed_is_the_same(functions[f], flags);
    renamed_is_the_same(functions[g], flags);
    assert(same_but_for_calls(kept[a], functions[f]) && same_but_for_calls(kept[b], functions[g]));
}

} // verus!
