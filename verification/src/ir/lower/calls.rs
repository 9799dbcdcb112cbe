//! Dropping the functions nothing can call.

use vstd::prelude::*;

use crate::graph::{closed_from, edges, raised_before, reachable_from, reaches, Graph};
use crate::ir::block::{block_views, instr_views, BlockView};
use crate::ir::func::{function_views, vtable_views, Function, FunctionView};
use crate::ir::instr::{Instr, InstrView};
use crate::ir::value::FuncId;

verus! {

/// What an instruction makes callable.
///
/// Making an object is what makes its methods callable, and the only thing that
/// does: a virtual call names a slot, and the objects that could answer it are
/// exactly the ones some object literal built.
pub open spec fn calls_of_instr(instr: InstrView, vtables: Seq<Seq<FuncId>>) -> Seq<int> {
    match instr {
        InstrView::Call { callee, .. } => seq![callee.0 as int],
        InstrView::VTable { class, .. } => vtables[class.0 as int].map_values(
            |id: FuncId| id.0 as int,
        ),
        _ => seq![],
    }
}

/// What the first `n` of a run of instructions make callable.
pub open spec fn calls_of_instrs(
    instrs: Seq<InstrView>,
    vtables: Seq<Seq<FuncId>>,
    n: int,
) -> Seq<int>
    decreases n,
{
    if n <= 0 {
        seq![]
    } else {
        calls_of_instrs(instrs, vtables, n - 1) + calls_of_instr(instrs[n - 1], vtables)
    }
}

/// What the first `n` of a run of blocks make callable.
pub open spec fn calls_of_blocks(
    blocks: Seq<BlockView>,
    vtables: Seq<Seq<FuncId>>,
    n: int,
) -> Seq<int>
    decreases n,
{
    if n <= 0 {
        seq![]
    } else {
        calls_of_blocks(blocks, vtables, n - 1) + calls_of_instrs(
            blocks[n - 1].instrs,
            vtables,
            blocks[n - 1].instrs.len() as int,
        )
    }
}

/// What a function makes callable.
pub open spec fn calls_of(function: FunctionView, vtables: Seq<Seq<FuncId>>) -> Seq<int> {
    calls_of_blocks(function.blocks, vtables, function.blocks.len() as int)
}

/// Which function can call which.
pub open spec fn call_graph(functions: Seq<FunctionView>, vtables: Seq<Seq<FuncId>>) -> Graph {
    functions.map_values(|function: FunctionView| calls_of(function, vtables))
}

/// Which functions can be called, starting from one.
pub open spec fn called_flags(
    functions: Seq<FunctionView>,
    vtables: Seq<Seq<FuncId>>,
    entry: FuncId,
) -> Seq<bool> {
    Seq::new(
        functions.len(),
        |at: int| reaches(call_graph(functions, vtables), entry.0 as int, at),
    )
}

/// What a function is known by once the others are gone. One that is gone
/// itself is named by nothing that runs.
pub open spec fn new_id(flags: Seq<bool>, id: FuncId) -> FuncId {
    if flags[id.0 as int] {
        FuncId(raised_before(flags, id.0 as int) as u32)
    } else {
        FuncId(0)
    }
}

pub open spec fn renamed_instr(instr: InstrView, flags: Seq<bool>) -> InstrView {
    match instr {
        InstrView::Call { dst, callee, args } => InstrView::Call {
            dst,
            callee: new_id(flags, callee),
            args,
        },
        _ => instr,
    }
}

pub open spec fn renamed_block(block: BlockView, flags: Seq<bool>) -> BlockView {
    BlockView {
        instrs: block.instrs.map_values(|instr: InstrView| renamed_instr(instr, flags)),
        ..block
    }
}

pub open spec fn renamed_function(function: FunctionView, flags: Seq<bool>) -> FunctionView {
    FunctionView {
        blocks: function.blocks.map_values(|block: BlockView| renamed_block(block, flags)),
        ..function
    }
}

/// Those of the first `n` functions that are kept, calling each other by their
/// new names.
pub open spec fn kept_functions(functions: Seq<FunctionView>, flags: Seq<bool>, n: int) -> Seq<
    FunctionView,
>
    decreases n,
{
    if n <= 0 {
        seq![]
    } else if flags[n - 1] {
        kept_functions(functions, flags, n - 1).push(renamed_function(functions[n - 1], flags))
    } else {
        kept_functions(functions, flags, n - 1)
    }
}

pub open spec fn renamed_tables(vtables: Seq<Seq<FuncId>>, flags: Seq<bool>) -> Seq<Seq<FuncId>> {
    vtables.map_values(
        |table: Seq<FuncId>| table.map_values(|id: FuncId| new_id(flags, id)),
    )
}

/// The functions that can be called from the entry point, and the method
/// tables that name them. Without an entry point there is no root to walk from.
pub open spec fn called_only(
    functions: Seq<FunctionView>,
    vtables: Seq<Seq<FuncId>>,
    entry: Option<FuncId>,
) -> (Seq<FunctionView>, Seq<Seq<FuncId>>) {
    match entry {
        None => (functions, vtables),
        Some(entry) => {
            let flags = called_flags(functions, vtables, entry);
            (
                kept_functions(functions, flags, functions.len() as int),
                renamed_tables(vtables, flags),
            )
        },
    }
}

/// Whether a function makes only classes there are tables for.
pub open spec fn makes_known_classes(function: FunctionView, vtables: nat) -> bool {
    forall|i: int, k: int|
        #![trigger function.blocks[i].instrs[k]]
        0 <= i < function.blocks.len() && 0 <= k < function.blocks[i].instrs.len() ==> (
        function.blocks[i].instrs[k] matches InstrView::VTable { class, .. } ==> class.0 < vtables)
}

/// Whether every call and every table entry names a function there is.
pub open spec fn is_call_graph(
    functions: Seq<FunctionView>,
    vtables: Seq<Seq<FuncId>>,
    entry: Option<FuncId>,
) -> bool {
    &&& functions.len() <= u32::MAX
    &&& forall|i: int|
        0 <= i < functions.len() ==> makes_known_classes(#[trigger] functions[i], vtables.len())
    &&& forall|i: int, k: int|
        #![trigger vtables[i][k]]
        0 <= i < vtables.len() && 0 <= k < vtables[i].len() ==> vtables[i][k].0 < functions.len()
    &&& match entry {
        Some(entry) => closed_from(call_graph(functions, vtables), entry.0 as int),
        None => true,
    }
}

/// Put what an instruction makes callable on the end of a list.
fn push_calls(out: &mut Vec<usize>, instr: &Instr, vtables: &Vec<Vec<FuncId>>)
    requires
        instr@ matches InstrView::VTable { class, .. } ==> class.0 < vtables@.len(),
    ensures
        indices(final(out)@) == indices(old(out)@) + calls_of_instr(
            instr@,
            vtable_views(vtables@),
        ),
{
    match instr {
        Instr::Call { callee, .. } => {
            out.push(callee.0 as usize);
            assert(indices(out@) =~= indices(old(out)@) + seq![callee.0 as int]);
        },
        Instr::VTable { class, .. } => {
            let table: &Vec<FuncId> = &vtables[class.0 as usize];
            let ghost all = table@.map_values(|id: FuncId| id.0 as int);
            let mut i: usize = 0;
            assert(indices(out@) =~= indices(old(out)@) + all.subrange(0, 0));
            while i < table.len()
                invariant
                    i <= table@.len(),
                    all == table@.map_values(|id: FuncId| id.0 as int),
                    indices(out@) == indices(old(out)@) + all.subrange(0, i as int),
                decreases table@.len() - i,
            {
                let ghost before = out@;
                out.push(table[i].0 as usize);
                i = i + 1;
                assert(indices(out@) =~= indices(before).push(all[i - 1]));
                assert(all.subrange(0, i as int) =~= all.subrange(0, i - 1).push(all[i - 1]));
                assert(indices(out@) =~= indices(old(out)@) + all.subrange(0, i as int));
            }
            assert(all.subrange(0, i as int) =~= all);
        },
        _ => {
            assert(indices(out@) =~= indices(old(out)@) + Seq::<int>::empty());
        },
    }
}

/// A list of indices as numbers.
pub open spec fn indices(list: Seq<usize>) -> Seq<int> {
    list.map_values(|at: usize| at as int)
}

/// What a function makes callable.
fn callees(function: &Function, vtables: &Vec<Vec<FuncId>>) -> (out: Vec<usize>)
    requires
        makes_known_classes(function@, vtables@.len()),
    ensures
        indices(out@) == calls_of(function@, vtable_views(vtables@)),
{
    let ghost tables = vtable_views(vtables@);
    let ghost blocks = function@.blocks;
    let mut out: Vec<usize> = Vec::new();
    let mut b: usize = 0;
    assert(indices(out@) =~= seq![]);
    while b < function.blocks.len()
        invariant
            b <= function.blocks@.len(),
            tables == vtable_views(vtables@),
            blocks == function@.blocks,
            makes_known_classes(function@, vtables@.len()),
            indices(out@) == calls_of_blocks(blocks, tables, b as int),
        decreases function.blocks@.len() - b,
    {
        let instrs: &Vec<Instr> = &function.blocks[b].instrs;
        let ghost held = indices(out@);
        let ghost views = blocks[b as int].instrs;
        assert(views == instr_views(instrs@));
        let mut k: usize = 0;
        assert(held + calls_of_instrs(views, tables, 0) =~= held);
        while k < instrs.len()
            invariant
                k <= instrs@.len(),
                b < function.blocks@.len(),
                tables == vtable_views(vtables@),
                blocks == function@.blocks,
                views == blocks[b as int].instrs,
                views == instr_views(instrs@),
                makes_known_classes(function@, vtables@.len()),
                indices(out@) == held + calls_of_instrs(views, tables, k as int),
            decreases instrs@.len() - k,
        {
            assert(views[k as int] == instrs@[k as int]@);
            assert(function@.blocks[b as int].instrs[k as int] == views[k as int]);
            push_calls(&mut out, &instrs[k], vtables);
            k = k + 1;
            assert(held + calls_of_instrs(views, tables, k - 1) + calls_of_instr(
                views[k - 1],
                tables,
            ) =~= held + calls_of_instrs(views, tables, k as int));
        }
        b = b + 1;
    }
    out
}

/// Call other functions by their new names.
fn rename_calls(function: &mut Function, renumber: &Vec<u32>, Ghost(flags): Ghost<Seq<bool>>)
    requires
        renumber@.len() == flags.len(),
        forall|i: int|
            0 <= i < flags.len() ==> FuncId(#[trigger] renumber@[i]) == new_id(
                flags,
                FuncId(i as u32),
            ),
        flags.len() <= u32::MAX,
        forall|i: int, k: int|
            #![trigger old(function)@.blocks[i].instrs[k]]
            0 <= i < old(function)@.blocks.len() && 0 <= k < old(function)@.blocks[i].instrs.len()
                ==> (old(function)@.blocks[i].instrs[k] matches InstrView::Call { callee, .. }
                ==> callee.0 < flags.len()),
    ensures
        final(function)@ == renamed_function(old(function)@, flags),
{
    let ghost before = function@;
    let ghost start = *function;
    let mut b: usize = 0;
    while b < function.blocks.len()
        invariant
            b <= function.blocks@.len(),
            before.blocks.len() == function.blocks@.len(),
            renumber@.len() == flags.len(),
            flags.len() <= u32::MAX,
            forall|i: int|
                0 <= i < flags.len() ==> FuncId(#[trigger] renumber@[i]) == new_id(
                    flags,
                    FuncId(i as u32),
                ),
            forall|i: int, k: int|
                #![trigger before.blocks[i].instrs[k]]
                0 <= i < before.blocks.len() && 0 <= k < before.blocks[i].instrs.len() ==> (
                before.blocks[i].instrs[k] matches InstrView::Call { callee, .. } ==> callee.0
                    < flags.len()),
            forall|i: int|
                0 <= i < b ==> (#[trigger] function.blocks@[i])@ == renamed_block(
                    before.blocks[i],
                    flags,
                ),
            forall|i: int|
                b <= i < before.blocks.len() ==> (#[trigger] function.blocks@[i])@
                    == before.blocks[i],
            function.name@ == before.name,
            function.params@ == before.params,
            function.ret == before.ret,
            function.frame_bytes == before.frame_bytes,
            crate::text::text_views(function.vreg_names@) == before.names,
        decreases function.blocks@.len() - b,
    {
        let ghost held = function.blocks@;
        assert(function.blocks@[b as int]@ == before.blocks[b as int]);
        let ghost views = before.blocks[b as int].instrs;
        let mut k: usize = 0;
        while k < function.blocks[b].instrs.len()
            invariant
                b < function.blocks@.len() == held.len(),
                before.blocks.len() == held.len(),
                views == before.blocks[b as int].instrs,
                k <= function.blocks@[b as int].instrs@.len() == views.len(),
                renumber@.len() == flags.len(),
                flags.len() <= u32::MAX,
                forall|i: int|
                    0 <= i < flags.len() ==> FuncId(#[trigger] renumber@[i]) == new_id(
                        flags,
                        FuncId(i as u32),
                    ),
                forall|i: int, k: int|
                    #![trigger before.blocks[i].instrs[k]]
                    0 <= i < before.blocks.len() && 0 <= k < before.blocks[i].instrs.len() ==> (
                    before.blocks[i].instrs[k] matches InstrView::Call { callee, .. } ==> callee.0
                        < flags.len()),
                forall|i: int|
                    0 <= i < held.len() && i != b ==> #[trigger] function.blocks@[i] == held[i],
                function.blocks@[b as int].kind == held[b as int].kind,
                function.blocks@[b as int].params == held[b as int].params,
                function.blocks@[b as int].index == held[b as int].index,
                function.blocks@[b as int].term == held[b as int].term,
                forall|j: int|
                    0 <= j < k ==> (#[trigger] function.blocks@[b as int].instrs@[j])@
                        == renamed_instr(views[j], flags),
                forall|j: int|
                    k <= j < views.len() ==> (#[trigger] function.blocks@[b as int].instrs@[j])@
                        == views[j],
                function.name@ == before.name,
                function.params@ == before.params,
                function.ret == before.ret,
                function.frame_bytes == before.frame_bytes,
                crate::text::text_views(function.vreg_names@) == before.names,
            decreases views.len() - k,
        {
            assert(function.blocks@[b as int].instrs@[k as int]@ == views[k as int]);
            assert(before.blocks[b as int].instrs[k as int] == views[k as int]);
            let to: Option<FuncId> = match &function.blocks[b].instrs[k] {
                Instr::Call { callee, .. } => Some(FuncId(renumber[callee.0 as usize])),
                _ => None,
            };
            if let Some(to) = to {
                set_callee(&mut function.blocks[b].instrs[k], to);
            }
            k = k + 1;
        }
        assert(instr_views(function.blocks@[b as int].instrs@) =~= views.map_values(
            |instr: InstrView| renamed_instr(instr, flags),
        ));
        b = b + 1;
    }
    assert(block_views(function.blocks@) =~= before.blocks.map_values(
        |block: BlockView| renamed_block(block, flags),
    ));
}

/// Call another function.
fn set_callee(instr: &mut Instr, to: FuncId)
    requires
        old(instr)@ is Call,
    ensures
        final(instr)@ is Call,
        final(instr)@->Call_dst == old(instr)@->Call_dst,
        final(instr)@->Call_callee == to,
        final(instr)@->Call_args == old(instr)@->Call_args,
{
    match instr {
        Instr::Call { callee, .. } => {
            *callee = to;
        },
        _ => {},
    }
}

/// Drop the functions nothing can call, and renumber the survivors.
///
/// The same walk as pruning blocks, one level up: the call graph instead of the
/// control flow graph, rooted at the entry point rather than at block 0. A
/// helper nobody calls costs a label, a prologue and an epilogue otherwise.
pub fn prune_unreachable_functions(
    functions: Vec<Function>,
    vtables: Vec<Vec<FuncId>>,
    entry: Option<FuncId>,
) -> (kept: (Vec<Function>, Vec<Vec<FuncId>>))
    requires
        is_call_graph(function_views(functions@), vtable_views(vtables@), entry),
        forall|f: int, i: int, k: int|
            #![trigger functions@[f]@.blocks[i].instrs[k]]
            0 <= f < functions@.len() && 0 <= i < functions@[f]@.blocks.len() && 0 <= k
                < functions@[f]@.blocks[i].instrs.len() ==> (functions@[f]@.blocks[i].instrs[k]
                matches InstrView::Call { callee, .. } ==> callee.0 < functions@.len()),
    ensures
        (function_views(kept.0@), vtable_views(kept.1@)) == called_only(
            function_views(functions@),
            vtable_views(vtables@),
            entry,
        ),
{
    let entry: FuncId = match entry {
        Some(entry) => entry,
        None => {
            return (functions, vtables);
        },
    };
    let ghost views = function_views(functions@);
    let ghost tables = vtable_views(vtables@);
    let ghost graph = call_graph(views, tables);
    let ghost flags = called_flags(views, tables, entry);
    let count: usize = functions.len();

    let mut next: Vec<Vec<usize>> = Vec::new();
    let mut i: usize = 0;
    while i < count
        invariant
            i <= count == functions@.len(),
            views == function_views(functions@),
            tables == vtable_views(vtables@),
            graph == call_graph(views, tables),
            forall|j: int|
                0 <= j < views.len() ==> makes_known_classes(#[trigger] views[j], tables.len()),
            next@.len() == i,
            forall|j: int| 0 <= j < i ==> indices((#[trigger] next@[j])@) == graph[j],
        decreases count - i,
    {
        assert(views[i as int] == functions@[i as int]@);
        assert(makes_known_classes(views[i as int], tables.len()));
        next.push(callees(&functions[i], &vtables));
        i = i + 1;
    }
    assert(edges(next@) =~= graph);
    let reachable: Vec<bool> = reachable_from(&next, entry.0 as usize);
    assert(reachable@ =~= flags);

    // Old index -> new index, for the calls and the tables that name them.
    let mut renumber: Vec<u32> = Vec::new();
    let mut following: u32 = 0;
    let mut i: usize = 0;
    while i < count
        invariant
            i <= count == reachable@.len(),
            count <= u32::MAX,
            reachable@ == flags,
            renumber@.len() == i,
            following == raised_before(flags, i as int),
            following <= i,
            forall|j: int|
                0 <= j < i ==> FuncId(#[trigger] renumber@[j]) == new_id(flags, FuncId(j as u32)),
        decreases count - i,
    {
        if reachable[i] {
            renumber.push(following);
            following = following + 1;
        } else {
            renumber.push(0);
        }
        i = i + 1;
    }

    let mut new_tables: Vec<Vec<FuncId>> = Vec::new();
    let mut i: usize = 0;
    while i < vtables.len()
        invariant
            i <= vtables@.len(),
            tables == vtable_views(vtables@),
            count == flags.len() == renumber@.len(),
            count <= u32::MAX,
            forall|a: int, k: int|
                #![trigger tables[a][k]]
                0 <= a < tables.len() && 0 <= k < tables[a].len() ==> tables[a][k].0 < count,
            forall|j: int|
                0 <= j < count ==> FuncId(#[trigger] renumber@[j]) == new_id(
                    flags,
                    FuncId(j as u32),
                ),
            new_tables@.len() == i,
            forall|j: int|
                0 <= j < i ==> (#[trigger] new_tables@[j])@ == tables[j].map_values(
                    |id: FuncId| new_id(flags, id),
                ),
        decreases vtables@.len() - i,
    {
        let table: &Vec<FuncId> = &vtables[i];
        assert(tables[i as int] == table@);
        let mut slots: Vec<FuncId> = Vec::new();
        let mut k: usize = 0;
        while k < table.len()
            invariant
                k <= table@.len(),
                i < tables.len(),
                tables[i as int] == table@,
                count == flags.len() == renumber@.len(),
                count <= u32::MAX,
                forall|a: int, k: int|
                    #![trigger tables[a][k]]
                    0 <= a < tables.len() && 0 <= k < tables[a].len() ==> tables[a][k].0 < count,
                forall|j: int|
                    0 <= j < count ==> FuncId(#[trigger] renumber@[j]) == new_id(
                        flags,
                        FuncId(j as u32),
                    ),
                slots@.len() == k,
                forall|j: int| 0 <= j < k ==> #[trigger] slots@[j] == new_id(flags, table@[j]),
            decreases table@.len() - k,
        {
            assert(tables[i as int][k as int].0 < count);
            slots.push(FuncId(renumber[table[k].0 as usize]));
            k = k + 1;
        }
        assert(slots@ =~= tables[i as int].map_values(|id: FuncId| new_id(flags, id)));
        new_tables.push(slots);
        i = i + 1;
    }
    assert(vtable_views(new_tables@) =~= renamed_tables(tables, flags));

    let mut rest: Vec<Function> = functions;
    let mut kept: Vec<Function> = Vec::new();
    let mut i: usize = 0;
    assert(function_views(kept@) =~= kept_functions(views, flags, 0));
    while i < count
        invariant
            i <= count == reachable@.len(),
            count <= u32::MAX,
            count == flags.len() == renumber@.len() == views.len(),
            reachable@ == flags,
            forall|j: int|
                0 <= j < count ==> FuncId(#[trigger] renumber@[j]) == new_id(
                    flags,
                    FuncId(j as u32),
                ),
            forall|f: int, i: int, k: int|
                #![trigger views[f].blocks[i].instrs[k]]
                0 <= f < views.len() && 0 <= i < views[f].blocks.len() && 0 <= k
                    < views[f].blocks[i].instrs.len() ==> (views[f].blocks[i].instrs[k] matches
                InstrView::Call { callee, .. } ==> callee.0 < count),
            rest@.len() == count - i,
            forall|j: int| 0 <= j < rest@.len() ==> (#[trigger] rest@[j])@ == views[j + i],
            function_views(kept@) == kept_functions(views, flags, i as int),
        decreases count - i,
    {
        assert(rest@[0]@ == views[i as int]);
        let ghost remaining = rest@;
        let mut function: Function = rest.remove(0);
        assert forall|j: int| 0 <= j < rest@.len() implies (#[trigger] rest@[j])@ == views[j + i
            + 1] by {
            assert(rest@[j] == remaining[j + 1]);
        }
        if reachable[i] {
            assert forall|b: int, k: int|
                #![trigger function@.blocks[b].instrs[k]]
                0 <= b < function@.blocks.len() && 0 <= k < function@.blocks[b].instrs.len()
                    implies (function@.blocks[b].instrs[k] matches InstrView::Call { callee, .. }
                ==> callee.0 < flags.len()) by {
                assert(views[i as int].blocks[b].instrs[k] == function@.blocks[b].instrs[k]);
            }
            rename_calls(&mut function, &renumber, Ghost(flags));
            let ghost before = kept@;
            kept.push(function);
            assert(function_views(kept@) =~= function_views(before).push(function@));
        }
        i = i + 1;
    }
    (kept, new_tables)
}

} // verus!
