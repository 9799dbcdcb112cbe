//! Why a lowered function reads nothing that was not written on every way there.
//!
//! While a function is built, every block is given a set of registers that hold
//! something on every way in. A register whose content is still read at the top of a
//! block is one the block is given, and the entry is given none.

use vstd::prelude::*;

use super::calls::{renamed_function, renamed_instr};
use super::state::{all_held, block_filled, blocks_filled, held_after, held_by_end, PendingView};
use crate::graph::{raised_before, reaches_itself};
use crate::ir::block::{
    flow, is_flow_graph, pruned, pruned_position, reached, reached_flags, renumbered,
    renumbered_target, BlockView, TermView,
};
use crate::ir::func::{hands_nothing, successor_kept, target_args_empty, FunctionView};
use crate::ir::instr::InstrView;
use crate::ir::liveness::{
    exposed, live_along, live_at, reads_at, reads_only_written, writes, written_before,
};
use crate::ir::value::{VReg, Value};

verus! {

/// What holds something after some instructions was given or written by one of them.
proof fn held_means(given: Set<VReg>, instrs: Seq<InstrView>, n: int, reg: VReg)
    requires
        0 <= n <= instrs.len(),
        held_after(given, instrs, n).contains(reg),
    ensures
        given.contains(reg) || exists|j: int|
            0 <= j < n && #[trigger] instrs[j].written() == Some(reg),
    decreases n,
{
    if n > 0 {
        if instrs[n - 1].written() != Some(reg) {
            held_means(given, instrs, n - 1, reg);
        }
    }
}

/// Whether a block is the finished form of one that was built.
spec fn finishes(block: BlockView, pending: PendingView) -> bool {
    &&& block.params.len() == 0
    &&& block.instrs == pending.instrs
    &&& pending.term == Some(block.term)
    &&& target_args_empty(block)
}

/// A block reads on entry only what it is given.
proof fn exposed_is_given(
    block: BlockView,
    pending: PendingView,
    blocks: Seq<PendingView>,
    reg: VReg,
)
    requires
        finishes(block, pending),
        block_filled(pending, blocks),
        exposed(block, reg),
    ensures
        pending.given.contains(reg),
{
    let i = choose|i: int|
        0 <= i <= block.instrs.len() && #[trigger] reads_at(block, i, reg) && !written_before(
            block,
            i,
            reg,
        );
    if i < block.instrs.len() {
        let values = block.instrs[i].operands();
        let k = choose|k: int| 0 <= k < values.len() && values[k] == Value::Reg(reg);
        assert(all_held(
            pending.instrs[i].operands(),
            held_after(pending.given, pending.instrs, i),
        ));
        assert(values[k] == Value::Reg(reg));
        held_means(pending.given, pending.instrs, i, reg);
    } else {
        reveal(held_by_end);
        let term = block.term;
        let values = term.operands();
        let k = choose|k: int| 0 <= k < values.len() && values[k] == Value::Reg(reg);
        match term {
            TermView::Jump(target) => {
                assert(term.targets()[0].args.len() == 0);
            },
            TermView::Branch { cond, then_blk, else_blk } => {
                assert(term.targets()[0].args.len() == 0);
                assert(term.targets()[1].args.len() == 0);
                assert(term.head()[k] == Value::Reg(reg));
            },
            TermView::Return(value) => {
                assert(term.head()[k] == Value::Reg(reg));
            },
        }
        held_means(pending.given, pending.instrs, pending.instrs.len() as int, reg);
    }
}

/// What is still read at the top of a block is given to it.
proof fn live_is_given(
    blocks: Seq<BlockView>,
    pending: Seq<PendingView>,
    path: Seq<int>,
    reg: VReg,
    at: int,
)
    requires
        is_flow_graph(blocks),
        hands_nothing(blocks),
        blocks.len() == pending.len() <= u32::MAX,
        forall|b: int| 0 <= b < blocks.len() ==> finishes(#[trigger] blocks[b], pending[b]),
        blocks_filled(pending),
        live_along(pruned(blocks), path, reg),
        0 <= at < blocks.len(),
        reached(blocks, at),
        raised_before(reached_flags(blocks), at) == path[0],
    ensures
        pending[at].given.contains(reg),
    decreases path.len(),
{
    let kept = pruned(blocks);
    let n = blocks.len() as int;
    pruned_position(blocks, n, at);
    let here = kept[path[0]];
    assert(here == renumbered(blocks, at));
    assert(finishes(blocks[at], pending[at]));
    assert(block_filled(pending[at], pending)) by {
        reveal(blocks_filled);
    }
    if path.len() == 1 {
        assert(here.term.operands() =~= blocks[at].term.operands());
        let i = choose|i: int|
            0 <= i <= here.instrs.len() && #[trigger] reads_at(here, i, reg) && !written_before(
                here,
                i,
                reg,
            );
        assert(reads_at(blocks[at], i, reg));
        assert(!written_before(blocks[at], i, reg)) by {
            if written_before(blocks[at], i, reg) {
                let j = choose|j: int|
                    0 <= j < i && #[trigger] blocks[at].instrs[j].written() == Some(reg);
                assert(here.instrs[j].written() == Some(reg));
            }
        }
        exposed_is_given(blocks[at], pending[at], pending, reg);
    } else {
        let rest = path.subrange(1, path.len() as int);
        let graph = flow(kept);
        assert(graph[path[0]].contains(path[1]));
        let k = choose|k: int| 0 <= k < graph[path[0]].len() && graph[path[0]][k] == path[1];
        assert(here.term.targets().len() == blocks[at].term.targets().len());
        successor_kept(blocks, at, k);
        let target = blocks[at].term.targets()[k];
        assert(here.term.targets()[k] == renumbered_target(target, reached_flags(blocks)));
        let to = target.block.0 as int;
        assert forall|i: int| 0 <= i < rest.len() implies 0 <= #[trigger] rest[i]
            < graph.len() by {
            assert(rest[i] == path[i + 1]);
        }
        assert forall|i: int| 0 <= i < rest.len() - 1 implies (
        #[trigger] graph[rest[i]]).contains(rest[i + 1]) by {
            assert(graph[path[i + 1]].contains(path[i + 1 + 1]));
        }
        assert forall|i: int| 0 <= i < rest.len() - 1 implies !writes(
            #[trigger] kept[rest[i]],
            reg,
        ) by {
            assert(!writes(kept[path[i + 1]], reg));
        }
        assert(rest.last() == path.last());
        assert(live_along(kept, rest, reg));
        live_is_given(blocks, pending, rest, reg, to);
        assert(pending[to].given.subset_of(held_by_end(pending[at])));
        assert(held_by_end(pending[at]).contains(reg));
        reveal(held_by_end);
        held_means(pending[at].given, pending[at].instrs, pending[at].instrs.len() as int, reg);
        assert(!writes(kept[path[0]], reg));
        if !pending[at].given.contains(reg) {
            let j = choose|j: int|
                0 <= j < pending[at].instrs.len() && #[trigger] pending[at].instrs[j].written()
                    == Some(reg);
            assert(here.instrs[j].written() == Some(reg));
        }
    }
}

/// A function whose blocks read only what they are given or write first, and whose
/// entry is given nothing, reads only what was written.
pub proof fn filled_reads_only_written(
    whole: FunctionView,
    pending: Seq<PendingView>,
)
    requires
        is_flow_graph(whole.blocks),
        hands_nothing(whole.blocks),
        0 < whole.blocks.len() == pending.len() <= u32::MAX,
        forall|b: int|
            0 <= b < pending.len() ==> (#[trigger] whole.blocks[b]).instrs == pending[b].instrs
                && pending[b].term == Some(whole.blocks[b].term),
        blocks_filled(pending),
        pending[0].given == Set::<VReg>::empty(),
    ensures
        reads_only_written(FunctionView { blocks: pruned(whole.blocks), ..whole }),
{
    let blocks = whole.blocks;
    let kept = pruned(blocks);
    assert forall|b: int| 0 <= b < blocks.len() implies finishes(#[trigger] blocks[b], pending[b]) by {
        assert(blocks[b].params.len() == 0);
    }
    assert forall|r: int| 0 <= r < whole.names.len() implies !#[trigger] live_at(
        kept,
        0,
        VReg(r as u32),
    ) by {
        let reg = VReg(r as u32);
        if live_at(kept, 0, reg) {
            let path = choose|path: Seq<int>| #[trigger] live_along(kept, path, reg) && path[0] == 0;
            reaches_itself(flow(blocks), 0);
            live_is_given(blocks, pending, path, reg, 0);
        }
    }
}

/// Calling other functions by their new names leaves what is read and written.
pub proof fn renaming_keeps_reads(function: FunctionView, flags: Seq<bool>)
    requires
        reads_only_written(function),
    ensures
        reads_only_written(renamed_function(function, flags)),
{
    let blocks = function.blocks;
    let new = renamed_function(function, flags);
    assert(flow(new.blocks) =~= flow(blocks));
    assert forall|r: int| 0 <= r < new.names.len() implies !#[trigger] live_at(
        new.blocks,
        0,
        VReg(r as u32),
    ) by {
        let reg = VReg(r as u32);
        assert(!live_at(blocks, 0, reg));
        if live_at(new.blocks, 0, reg) {
            let path = choose|path: Seq<int>| #[trigger]
                live_along(new.blocks, path, reg) && path[0] == 0;
            assert forall|b: int| 0 <= b < blocks.len() implies writes(
                #[trigger] blocks[b],
                reg,
            ) == writes(new.blocks[b], reg) by {
                renaming_keeps_writes(function, flags, b, blocks[b].instrs.len() as int, reg);
            }
            let last = path.last();
            let i = choose|i: int|
                0 <= i <= new.blocks[last].instrs.len() && #[trigger] reads_at(
                    new.blocks[last],
                    i,
                    reg,
                ) && !written_before(new.blocks[last], i, reg);
            renaming_keeps_writes(function, flags, last, i, reg);
            if i < blocks[last].instrs.len() {
                assert(new.blocks[last].instrs[i] == renamed_instr(blocks[last].instrs[i], flags));
            }
            assert(reads_at(blocks[last], i, reg));
            assert forall|k: int| 0 <= k < path.len() - 1 implies !writes(
                #[trigger] blocks[path[k]],
                reg,
            ) by {
                assert(!writes(new.blocks[path[k]], reg));
            }
            assert(live_along(blocks, path, reg));
        }
    }
}

proof fn renaming_keeps_writes(
    function: FunctionView,
    flags: Seq<bool>,
    b: int,
    n: int,
    reg: VReg,
)
    requires
        0 <= b < function.blocks.len(),
        0 <= n <= function.blocks[b].instrs.len(),
    ensures
        written_before(function.blocks[b], n, reg) == written_before(
            renamed_function(function, flags).blocks[b],
            n,
            reg,
        ),
{
    let one = function.blocks[b];
    let other = renamed_function(function, flags).blocks[b];
    assert forall|j: int| 0 <= j < n implies #[trigger] one.instrs[j].written()
        == other.instrs[j].written() by {
        assert(other.instrs[j] == renamed_instr(one.instrs[j], flags));
    }
    if written_before(one, n, reg) && !one.params.contains(reg) {
        let j = choose|j: int| 0 <= j < n && #[trigger] one.instrs[j].written() == Some(reg);
        assert(other.instrs[j].written() == Some(reg));
    }
    if written_before(other, n, reg) && !other.params.contains(reg) {
        let j = choose|j: int| 0 <= j < n && #[trigger] other.instrs[j].written() == Some(reg);
        assert(one.instrs[j].written() == Some(reg));
    }
}

} // verus!
