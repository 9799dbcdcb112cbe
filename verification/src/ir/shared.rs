//! That two registers share one wherever they can.

use vstd::prelude::*;

use crate::ir::block::BlockView;
use crate::ir::coalesce::{
    apart, coalesced, conflict, copies_itself, interfere, joined_by, joined_in, joined_in_block,
    leaders_of, led_instrs, Leaders,
};
use crate::ir::func::FunctionView;
use crate::ir::instr::InstrView;
use crate::ir::value::{VReg, Value};

verus! {

/// Whether two registers share one, or something stands in the way.
pub open spec fn settled(blocks: Seq<BlockView>, leaders: Leaders, x: VReg, y: VReg) -> bool {
    let a = leaders[x.0 as int];
    let b = leaders[y.0 as int];
    a == b || conflict(blocks, leaders, a, b)
}

proof fn stays_settled(
    blocks: Seq<BlockView>,
    leaders: Leaders,
    instr: InstrView,
    x: VReg,
    y: VReg,
)
    requires
        x.0 < leaders.len(),
        y.0 < leaders.len(),
        settled(blocks, leaders, x, y),
    ensures
        joined_by(blocks, leaders, instr).len() == leaders.len(),
        settled(blocks, joined_by(blocks, leaders, instr), x, y),
{
    let after = joined_by(blocks, leaders, instr);
    let a = leaders[x.0 as int];
    let b = leaders[y.0 as int];
    if a != b {
        let (i, j) = choose|i: int, j: int|
            0 <= i < leaders.len() && 0 <= j < leaders.len() && #[trigger] leaders[i] == a
                && #[trigger] leaders[j] == b && interfere(
                blocks,
                VReg(i as u32),
                VReg(j as u32),
            );
        assert(after[i] == after[x.0 as int]);
        assert(after[j] == after[y.0 as int]);
    }
}

proof fn is_settled(blocks: Seq<BlockView>, leaders: Leaders, x: VReg, y: VReg)
    requires
        x.0 < leaders.len(),
        y.0 < leaders.len(),
    ensures
        settled(
            blocks,
            joined_by(blocks, leaders, (InstrView::Copy { dst: x, src: Value::Reg(y) })),
            x,
            y,
        ),
{
}

proof fn settled_in_block(
    blocks: Seq<BlockView>,
    leaders: Leaders,
    b: int,
    n: int,
    k: int,
    x: VReg,
    y: VReg,
)
    requires
        x.0 < leaders.len(),
        y.0 < leaders.len(),
        0 <= n <= blocks[b].instrs.len(),
        settled(blocks, leaders, x, y) || (0 <= k < n && blocks[b].instrs[k] == (InstrView::Copy {
            dst: x,
            src: Value::Reg(y),
        })),
    ensures
        joined_in_block(blocks, leaders, b, n).len() == leaders.len(),
        settled(blocks, joined_in_block(blocks, leaders, b, n), x, y),
    decreases n,
{
    if n > 0 {
        block_keeps_count(blocks, leaders, b, n - 1);
        let before = joined_in_block(blocks, leaders, b, n - 1);
        if settled(blocks, leaders, x, y) || k < n - 1 {
            settled_in_block(blocks, leaders, b, n - 1, k, x, y);
            stays_settled(blocks, before, blocks[b].instrs[n - 1], x, y);
        } else {
            is_settled(blocks, before, x, y);
        }
        block_keeps_count(blocks, leaders, b, n);
    }
}

proof fn block_keeps_count(blocks: Seq<BlockView>, leaders: Leaders, b: int, n: int)
    ensures
        joined_in_block(blocks, leaders, b, n).len() == leaders.len(),
    decreases n,
{
    if n > 0 {
        block_keeps_count(blocks, leaders, b, n - 1);
    }
}

proof fn count_is_kept(blocks: Seq<BlockView>, leaders: Leaders, n: int)
    ensures
        joined_in(blocks, leaders, n).len() == leaders.len(),
    decreases n,
{
    if n > 0 {
        count_is_kept(blocks, leaders, n - 1);
        block_keeps_count(
            blocks,
            joined_in(blocks, leaders, n - 1),
            n - 1,
            blocks[n - 1].instrs.len() as int,
        );
    }
}

proof fn settled_in(
    blocks: Seq<BlockView>,
    leaders: Leaders,
    n: int,
    b: int,
    k: int,
    x: VReg,
    y: VReg,
)
    requires
        x.0 < leaders.len(),
        y.0 < leaders.len(),
        0 <= b < n <= blocks.len(),
        0 <= k < blocks[b].instrs.len(),
        blocks[b].instrs[k] == (InstrView::Copy { dst: x, src: Value::Reg(y) }),
    ensures
        settled(blocks, joined_in(blocks, leaders, n), x, y),
    decreases n,
{
    let before = joined_in(blocks, leaders, n - 1);
    count_is_kept(blocks, leaders, n - 1);
    if b < n - 1 {
        settled_in(blocks, leaders, n - 1, b, k, x, y);
    }
    settled_in_block(blocks, before, n - 1, blocks[n - 1].instrs.len() as int, k, x, y);
}

/// **The two ends of a copy share a register unless something stands in the way**: unless
/// one that shares with the one is live together with one that shares with the other.
pub proof fn copies_share_where_they_can(function: FunctionView, b: int, k: int, x: VReg, y: VReg)
    requires
        x.0 < function.names.len(),
        y.0 < function.names.len(),
        0 <= b < function.blocks.len(),
        0 <= k < function.blocks[b].instrs.len(),
        function.blocks[b].instrs[k] == (InstrView::Copy { dst: x, src: Value::Reg(y) }),
    ensures
        ({
            let leaders = leaders_of(function);
            ||| leaders[x.0 as int] == leaders[y.0 as int]
            ||| exists|i: int, j: int|
                0 <= i < function.names.len() && 0 <= j < function.names.len()
                    && #[trigger] leaders[i] == leaders[x.0 as int] && #[trigger] leaders[j]
                    == leaders[y.0 as int] && interfere(
                    function.blocks,
                    VReg(i as u32),
                    VReg(j as u32),
                )
        }),
{
    let blocks = function.blocks;
    settled_in(blocks, apart(function.names.len()), blocks.len() as int, b, k, x, y);
    count_is_kept(blocks, apart(function.names.len()), blocks.len() as int);
}

/// **No copy is left whose ends share a register**, where any two do.
pub proof fn no_copy_to_itself_is_left(function: FunctionView, b: int, k: int)
    requires
        coalesced(function) != function,
        0 <= b < function.blocks.len(),
        0 <= k < coalesced(function).blocks[b].instrs.len(),
    ensures
        !copies_itself(coalesced(function).blocks[b].instrs[k]),
{
    let instrs = function.blocks[b].instrs;
    none_copies_itself(leaders_of(function), instrs, instrs.len() as int, k);
}

proof fn none_copies_itself(leaders: Leaders, instrs: Seq<InstrView>, n: int, k: int)
    requires
        0 <= k < led_instrs(leaders, instrs, n).len(),
    ensures
        !copies_itself(led_instrs(leaders, instrs, n)[k]),
    decreases n,
{
    if n > 0 {
        let rest = led_instrs(leaders, instrs, n - 1);
        if k < rest.len() {
            none_copies_itself(leaders, instrs, n - 1, k);
        }
    }
}

} // verus!
