//! Where block parameters go.
//!
//! At the **iterated dominance frontier** of a variable's definitions — the one
//! place a value written on one path can meet a value written on another. Two
//! refinements keep the result small:
//!
//! * Only variables written in more than one block are considered. A temporary
//!   is written once, and one definition cannot meet another.
//! * A parameter is placed only where the variable is **live**, which is what
//!   stops a value computed inside a loop from growing a parameter on a header
//!   it is not live on — where the entry edge would have had to hand it a value
//!   that does not exist yet.

use vstd::prelude::*;

use super::dom::{Dominance, Dominators};
use crate::graph::{lowered, raising_one};
use crate::ir::block::{flow, BlockView};
use crate::ir::func::{block_within, well_formed, Function, FunctionView};
use crate::ir::instr::instr_within;
use crate::ir::liveness::{live_at, liveness, roomy, Liveness};
use crate::ir::value::{BlockId, VReg};

verus! {

/// Whether an instruction of a block writes a register.
pub open spec fn defines(block: BlockView, reg: VReg) -> bool {
    exists|k: int|
        0 <= k < block.instrs.len() && #[trigger] block.instrs[k].written() == Some(reg)
}

/// Whether a register is written in more than one block. One written in one
/// block only can never meet a second definition of itself.
pub open spec fn written_apart(blocks: Seq<BlockView>, reg: VReg) -> bool {
    exists|a: int, b: int|
        0 <= a < b < blocks.len() && #[trigger] defines(blocks[a], reg) && #[trigger] defines(
            blocks[b],
            reg,
        )
}

/// Whether `to` is where the dominance of `from` runs out and the register is
/// still wanted.
pub open spec fn meets_at(
    function: FunctionView,
    tree: Dominance,
    reg: VReg,
    from: int,
    to: int,
) -> bool {
    tree.frontier(from, to) && live_at(function.blocks, to, reg)
}

/// Whether a run of blocks starts at a definition, each after the first being
/// where what is written in the one before it meets another value. Placing a
/// parameter is itself a definition, so the run goes on from one.
pub open spec fn meeting_chain(
    function: FunctionView,
    tree: Dominance,
    reg: VReg,
    chain: Seq<int>,
) -> bool {
    &&& chain.len() > 0
    &&& forall|i: int| 0 <= i < chain.len() ==> 0 <= #[trigger] chain[i] < function.blocks.len()
    &&& defines(function.blocks[chain[0]], reg)
    &&& forall|i: int|
        0 < i < chain.len() ==> meets_at(
            function,
            tree,
            reg,
            chain[i - 1],
            #[trigger] chain[i],
        )
}

/// Whether values of a register meet at a block.
pub open spec fn values_meet(
    function: FunctionView,
    tree: Dominance,
    reg: VReg,
    at: int,
) -> bool {
    exists|chain: Seq<int>|
        chain.len() >= 2 && chain.last() == at && #[trigger] meeting_chain(
            function,
            tree,
            reg,
            chain,
        )
}

/// Whether a block needs a parameter for a register.
pub open spec fn wants(function: FunctionView, tree: Dominance, reg: VReg, at: int) -> bool {
    written_apart(function.blocks, reg) && values_meet(function, tree, reg, at)
}

/// The registers a block needs a parameter for, in order, out of the first `n`.
pub open spec fn wanted_before(
    function: FunctionView,
    tree: Dominance,
    at: int,
    n: int,
) -> Seq<VReg>
    decreases n,
{
    if n <= 0 {
        seq![]
    } else {
        let rest = wanted_before(function, tree, at, n - 1);
        if wants(function, tree, VReg((n - 1) as u32), at) {
            rest.push(VReg((n - 1) as u32))
        } else {
            rest
        }
    }
}

/// The registers each block needs a parameter for.
///
/// The order is the one thing every edge has to agree on, an argument list being
/// positional. Ordering by register number settles it for all of them at once,
/// without anything having to be passed between the edges.
pub open spec fn wanted(function: FunctionView, tree: Dominance) -> Seq<Seq<VReg>> {
    Seq::new(
        function.blocks.len(),
        |at: int| wanted_before(function, tree, at, function.names.len() as int),
    )
}

/// Where each register is written, each block once.
fn written_in(function: &Function) -> (lists: Vec<Vec<BlockId>>)
    requires
        well_formed(function@),
    ensures
        lists@.len() == function@.names.len(),
        forall|r: int, b: int|
            #![trigger lists@[r]@.contains(BlockId(b as u32))]
            0 <= r < lists@.len() && 0 <= b < function.blocks@.len() ==> lists@[r]@.contains(
                BlockId(b as u32),
            ) == defines(function@.blocks[b], VReg(r as u32)),
        forall|r: int, k: int|
            #![trigger lists@[r]@[k]]
            0 <= r < lists@.len() && 0 <= k < lists@[r]@.len() ==> lists@[r]@[k].0
                < function.blocks@.len(),
        forall|r: int| 0 <= r < lists@.len() ==> (#[trigger] lists@[r])@.no_duplicates(),
{
    let ghost view = function@;
    let count: usize = function.vreg_count();
    let mut lists: Vec<Vec<BlockId>> = Vec::new();
    let mut i: usize = 0;
    while i < count
        invariant
            i <= count,
            lists@.len() == i,
            forall|r: int| 0 <= r < i ==> (#[trigger] lists@[r])@ == Seq::<BlockId>::empty(),
        decreases count - i,
    {
        lists.push(Vec::new());
        i = i + 1;
    }
    let mut index: usize = 0;
    while index < function.blocks.len()
        invariant
            index <= function.blocks@.len(),
            view == function@,
            well_formed(view),
            count == view.names.len(),
            lists@.len() == count,
            forall|r: int, b: int|
                #![trigger lists@[r]@.contains(BlockId(b as u32))]
                0 <= r < count && 0 <= b < index ==> lists@[r]@.contains(BlockId(b as u32))
                    == defines(view.blocks[b], VReg(r as u32)),
            forall|r: int, k: int|
                #![trigger lists@[r]@[k]]
                0 <= r < count && 0 <= k < lists@[r]@.len() ==> lists@[r]@[k].0 < index,
            forall|r: int| 0 <= r < count ==> (#[trigger] lists@[r])@.no_duplicates(),
        decreases function.blocks@.len() - index,
    {
        let id = BlockId(index as u32);
        let ghost block = view.blocks[index as int];
        assert(block == function.blocks@[index as int]@);
        assert(block_within(block, view.names.len(), view.blocks.len()));
        let ghost before = lists@;
        let mut k: usize = 0;
        assert forall|r: int| 0 <= r < count implies !(#[trigger] lists@[r])@.contains(id) by {
            if lists@[r]@.contains(id) {
                let k = choose|k: int| 0 <= k < lists@[r]@.len() && lists@[r]@[k] == id;
                assert(lists@[r]@[k].0 < index);
            }
        }
        while k < function.blocks[index].instrs.len()
            invariant
                k <= block.instrs.len(),
                index < function.blocks@.len(),
                view == function@,
                well_formed(view),
                id == BlockId(index as u32),
                block == view.blocks[index as int],
                block == function.blocks@[index as int]@,
                block_within(block, view.names.len(), view.blocks.len()),
                count == view.names.len(),
                before.len() == count,
                lists@.len() == count,
                forall|r: int|
                    0 <= r < count ==> (#[trigger] lists@[r])@ == if exists|j: int|
                        0 <= j < k && #[trigger] block.instrs[j].written() == Some(
                            VReg(r as u32),
                        ) {
                        before[r]@.push(id)
                    } else {
                        before[r]@
                    },
                forall|r: int| 0 <= r < count ==> !(#[trigger] before[r])@.contains(id),
            decreases block.instrs.len() - k,
        {
            assert(block.instrs[k as int] == function.blocks@[index as int].instrs@[k as int]@);
            assert(instr_within(block.instrs[k as int], view.names.len()));
            let ghost so_far = lists@;
            let defined = function.blocks[index].instrs[k].def();
            if let Some(def) = defined {
                let r: usize = def.0 as usize;
                assert(def == VReg(r as u32));
                if !holds(&lists[r], id) {
                    lists[r].push(id);
                } else {
                    assert(so_far[r as int]@ != before[r as int]@);
                }
                assert(lists@[r as int]@ =~= before[r as int]@.push(id)) by {
                    if so_far[r as int]@ == before[r as int]@.push(id) {
                        assert(so_far[r as int]@[before[r as int]@.len() as int] == id);
                    }
                }
            }
            assert forall|r: int| 0 <= r < count implies (#[trigger] lists@[r])@ == if exists|
                j: int,
            |
                0 <= j < k + 1 && #[trigger] block.instrs[j].written() == Some(VReg(r as u32)) {
                before[r]@.push(id)
            } else {
                before[r]@
            } by {
                assert(so_far[r]@ == so_far[r]@);
                if block.instrs[k as int].written() == Some(VReg(r as u32)) {
                    assert(0 <= k < k + 1);
                } else {
                    assert(lists@[r] == so_far[r]);
                }
            }
            k = k + 1;
        }
        proof {
            assert forall|r: int, b: int|
                #![trigger lists@[r]@.contains(BlockId(b as u32))]
                0 <= r < count && 0 <= b < index + 1 implies lists@[r]@.contains(BlockId(b as u32))
                == defines(view.blocks[b], VReg(r as u32)) by {
                let other = BlockId(b as u32);
                assert(before[r]@.contains(other) == (b < index && defines(
                    view.blocks[b],
                    VReg(r as u32),
                ))) by {
                    if b < index {
                        assert(before[r]@.contains(BlockId(b as u32)) == defines(
                            view.blocks[b],
                            VReg(r as u32),
                        ));
                    }
                }
                assert(lists@[r]@ == lists@[r]@);
                if lists@[r]@.contains(other) {
                    let k = choose|k: int| 0 <= k < lists@[r]@.len() && lists@[r]@[k] == other;
                    if k < before[r]@.len() {
                        assert(before[r]@[k] == other);
                    } else {
                        assert(other == id);
                    }
                }
                if before[r]@.contains(other) {
                    let k = choose|k: int| 0 <= k < before[r]@.len() && before[r]@[k] == other;
                    assert(lists@[r]@[k] == other);
                }
                if b == index && defines(view.blocks[b], VReg(r as u32)) {
                    assert(lists@[r]@ == before[r]@.push(id));
                    assert(lists@[r]@[before[r]@.len() as int] == id);
                }
            }
            assert forall|r: int, k: int|
                #![trigger lists@[r]@[k]]
                0 <= r < count && 0 <= k < lists@[r]@.len() implies lists@[r]@[k].0 < index + 1 by {
                if k < before[r]@.len() {
                    assert(before[r]@[k].0 < index);
                }
            }
            assert forall|r: int| 0 <= r < count implies (#[trigger] lists@[r])@.no_duplicates() by {
                assert(before[r]@.no_duplicates());
                assert(!before[r]@.contains(id));
            }
        }
        index = index + 1;
    }
    lists
}

/// Whether a block is in a list.
fn holds(list: &Vec<BlockId>, id: BlockId) -> (found: bool)
    ensures
        found == list@.contains(id),
{
    let mut i: usize = 0;
    while i < list.len()
        invariant
            i <= list@.len(),
            forall|k: int| 0 <= k < i ==> list@[k] != id,
        decreases list@.len() - i,
    {
        if list[i] == id {
            return true;
        }
        i = i + 1;
    }
    false
}

/// Which blocks values of a register meet at, each flagged.
///
/// Iterated, because placing a parameter is itself a definition and has a
/// frontier of its own.
fn meeting_blocks(
    function: &Function,
    frontiers: &Vec<Vec<BlockId>>,
    live: &Liveness,
    blocks: &Vec<BlockId>,
    reg: VReg,
    Ghost(tree): Ghost<Dominance>,
) -> (placed: Vec<bool>)
    requires
        well_formed(function@),
        tree.well_formed(),
        tree.graph == flow(function@.blocks),
        reg.0 < function@.names.len(),
        frontiers@.len() == function.blocks@.len(),
        forall|x: int, k: int|
            #![trigger frontiers@[x]@[k]]
            0 <= x < frontiers@.len() && 0 <= k < frontiers@[x]@.len() ==> frontiers@[x]@[k].0
                < function.blocks@.len(),
        forall|x: int, b: int|
            0 <= x < frontiers@.len() && 0 <= b < function.blocks@.len()
                ==> frontiers@[x]@.contains(BlockId(b as u32)) == #[trigger] tree.frontier(x, b),
        live.live_in@.len() == function.blocks@.len(),
        forall|b: int|
            0 <= b < function.blocks@.len() ==> roomy(
                #[trigger] live.live_in@[b],
                function@.names.len(),
            ),
        forall|b: int, reg: VReg|
            0 <= b < function.blocks@.len() ==> #[trigger] live.live_in@[b].has(reg) == live_at(
                function@.blocks,
                b,
                reg,
            ),
        forall|b: int|
            0 <= b < function.blocks@.len() ==> #[trigger] blocks@.contains(BlockId(b as u32))
                == defines(function@.blocks[b], reg),
        forall|k: int| 0 <= k < blocks@.len() ==> (#[trigger] blocks@[k]).0 < function.blocks@.len(),
    ensures
        placed@.len() == function.blocks@.len(),
        forall|b: int|
            0 <= b < placed@.len() ==> #[trigger] placed@[b] == values_meet(
                function@,
                tree,
                reg,
                b,
            ),
{
    let ghost view = function@;
    let count: usize = function.blocks.len();
    let mut placed: Vec<bool> = Vec::new();
    let mut i: usize = 0;
    while i < count
        invariant
            i <= count,
            placed@.len() == i,
            forall|b: int| 0 <= b < i ==> !placed@[b],
        decreases count - i,
    {
        placed.push(false);
        i = i + 1;
    }
    let mut queue: Vec<BlockId> = Vec::new();
    let mut i: usize = 0;
    while i < blocks.len()
        invariant
            i <= blocks@.len(),
            queue@ == blocks@.take(i as int),
        decreases blocks@.len() - i,
    {
        queue.push(blocks[i]);
        assert(blocks@.take(i + 1) =~= blocks@.take(i as int).push(blocks@[i as int]));
        i = i + 1;
    }
    assert(queue@ =~= blocks@);
    proof {
        assert forall|b: int| 0 <= b < count && defines(view.blocks[b], reg) implies #[trigger] source(
            view,
            tree,
            reg,
            b,
        ) by {
            source_is_definition(view, tree, reg, b);
        }
        assert forall|k: int| 0 <= k < queue@.len() implies (#[trigger] queue@[k]).0 < count
            && source(view, tree, reg, queue@[k].0 as int) by {
            assert(blocks@.contains(BlockId(queue@[k].0 as int as u32)));
            source_is_definition(view, tree, reg, queue@[k].0 as int);
        }
    }
    while queue.len() > 0
        invariant
            view == function@,
            count == view.blocks.len(),
            count <= u32::MAX,
            reg.0 < view.names.len(),
            frontiers@.len() == count,
            forall|x: int, k: int|
                #![trigger frontiers@[x]@[k]]
                0 <= x < frontiers@.len() && 0 <= k < frontiers@[x]@.len() ==> frontiers@[x]@[k].0
                    < count,
            forall|x: int, b: int|
                0 <= x < frontiers@.len() && 0 <= b < count ==> frontiers@[x]@.contains(
                    BlockId(b as u32),
                ) == #[trigger] tree.frontier(x, b),
            live.live_in@.len() == count,
            forall|b: int|
                0 <= b < count ==> roomy(#[trigger] live.live_in@[b], view.names.len()),
            forall|b: int, reg: VReg|
                0 <= b < count ==> #[trigger] live.live_in@[b].has(reg) == live_at(
                    view.blocks,
                    b,
                    reg,
                ),
            placed@.len() == count,
            forall|b: int|
                0 <= b < count && #[trigger] placed@[b] ==> values_meet(view, tree, reg, b),
            forall|k: int|
                0 <= k < queue@.len() ==> (#[trigger] queue@[k]).0 < count && source(
                    view,
                    tree,
                    reg,
                    queue@[k].0 as int,
                ),
            forall|b: int|
                #![trigger placed@[b]]
                #![trigger spread(view, tree, reg, placed@, b)]
                0 <= b < count && (placed@[b] || defines(view.blocks[b], reg)) ==> queue@.contains(
                    BlockId(b as u32),
                ) || spread(view, tree, reg, placed@, b),
        decreases lowered(placed@), queue@.len(),
    {
        let ghost queue_before = queue@;
        let ghost placed_before = placed@;
        assert(forall|b: int|
            #![trigger placed_before[b]]
            0 <= b < count && (placed_before[b] || defines(view.blocks[b], reg))
                ==> queue_before.contains(BlockId(b as u32)) || spread(
                view,
                tree,
                reg,
                placed_before,
                b,
            ));
        let id: BlockId = queue[queue.len() - 1];
        queue.pop();
        assert(queue_before == queue@.push(id));
        assert(queue_before[queue_before.len() - 1] == id);
        let x: usize = id.0 as usize;
        let list: &Vec<BlockId> = &frontiers[x];
        let ghost popped = queue@;
        let mut k: usize = 0;
        while k < list.len()
            invariant
                k <= list@.len(),
                view == function@,
                count == view.blocks.len(),
                count <= u32::MAX,
                reg.0 < view.names.len(),
                x < count,
                frontiers@.len() == count,
                *list == frontiers@[x as int],
                forall|k: int| 0 <= k < list@.len() ==> (#[trigger] list@[k]).0 < count,
                forall|b: int|
                    0 <= b < count ==> list@.contains(BlockId(b as u32))
                        == #[trigger] tree.frontier(x as int, b),
                live.live_in@.len() == count,
                forall|b: int|
                    0 <= b < count ==> roomy(#[trigger] live.live_in@[b], view.names.len()),
                forall|b: int, reg: VReg|
                    0 <= b < count ==> #[trigger] live.live_in@[b].has(reg) == live_at(
                        view.blocks,
                        b,
                        reg,
                    ),
                source(view, tree, reg, x as int),
                placed@.len() == count,
                placed_before.len() == count,
                forall|b: int| 0 <= b < count && #[trigger] placed_before[b] ==> placed@[b],
                forall|b: int|
                    0 <= b < count && #[trigger] placed@[b] && !placed_before[b] ==> queue@.contains(
                        BlockId(b as u32),
                    ),
                forall|b: int|
                    0 <= b < count && #[trigger] placed@[b] ==> values_meet(view, tree, reg, b),
                forall|j: int|
                    0 <= j < queue@.len() ==> (#[trigger] queue@[j]).0 < count && source(
                        view,
                        tree,
                        reg,
                        queue@[j].0 as int,
                    ),
                forall|other: BlockId| popped.contains(other) ==> queue@.contains(other),
                forall|j: int|
                    0 <= j < k && live_at(view.blocks, (#[trigger] list@[j]).0 as int, reg)
                        ==> placed@[list@[j].0 as int],
                lowered(placed@) < lowered(placed_before) || (placed@ == placed_before && queue@
                    == popped),
            decreases list@.len() - k,
        {
            let to: BlockId = list[k];
            let at: usize = to.0 as usize;
            assert(live.live_in@[at as int].has(reg) == live_at(view.blocks, at as int, reg));
            assert(roomy(live.live_in@[at as int], view.names.len()));
            if !placed[at] && live.live_in[at].contains(reg) {
                let ghost flags = placed@;
                let ghost held = queue@;
                assert(to == BlockId(at as int as u32));
                assert(list@.contains(to));
                assert(tree.frontier(x as int, at as int));
                proof {
                    raising_one(placed@, at as int);
                    source_spreads(view, tree, reg, x as int, at as int);
                }
                placed.set(at, true);
                queue.push(to);
                proof {
                    assert(queue@[held.len() as int] == to);
                    assert forall|other: BlockId| held.contains(other) implies queue@.contains(
                        other,
                    ) by {
                        let j = choose|j: int| 0 <= j < held.len() && held[j] == other;
                        assert(queue@[j] == other);
                    }
                    assert forall|b: int|
                        0 <= b < count && #[trigger] placed@[b] && !placed_before[b] implies queue@.contains(
                        BlockId(b as u32),
                    ) by {
                        if b != at {
                            assert(flags[b]);
                        }
                    }
                }
            }
            k = k + 1;
        }
        proof {
            assert(spread(view, tree, reg, placed@, x as int)) by {
                assert forall|y: int|
                    0 <= y < view.blocks.len() && #[trigger] meets_at(
                        view,
                        tree,
                        reg,
                        x as int,
                        y,
                    ) implies placed@[y] by {
                    assert(tree.frontier(x as int, y));
                    assert(list@.contains(BlockId(y as u32)));
                    let j = choose|j: int| 0 <= j < list@.len() && list@[j] == BlockId(y as u32);
                    assert(list@[j].0 == y);
                }
            }
            assert forall|b: int|
                #![trigger placed@[b]]
                #![trigger spread(view, tree, reg, placed@, b)]
                0 <= b < count && (placed@[b] || defines(view.blocks[b], reg)) implies queue@.contains(
                BlockId(b as u32),
            ) || spread(view, tree, reg, placed@, b) by {
                if placed_before[b] || defines(view.blocks[b], reg) {
                    assert(placed_before[b] == placed_before[b]);
                    if b != x {
                        if queue_before.contains(BlockId(b as u32)) {
                            let j = choose|j: int|
                                0 <= j < queue_before.len() && queue_before[j] == BlockId(b as u32);
                            assert(j < queue_before.len() - 1);
                            assert(popped[j] == BlockId(b as u32));
                            assert(popped.contains(BlockId(b as u32)));
                        } else {
                            assert(spread(view, tree, reg, placed_before, b));
                            assert forall|y: int|
                                0 <= y < view.blocks.len() && #[trigger] meets_at(
                                    view,
                                    tree,
                                    reg,
                                    b,
                                    y,
                                ) implies placed@[y] by {
                                assert(placed_before[y]);
                            }
                        }
                    }
                }
            }
        }
    }
    proof {
        assert forall|b: int| 0 <= b < count implies #[trigger] placed@[b] == values_meet(
            view,
            tree,
            reg,
            b,
        ) by {
            if values_meet(view, tree, reg, b) {
                let chain = choose|chain: Seq<int>|
                    chain.len() >= 2 && chain.last() == b && #[trigger] meeting_chain(
                        view,
                        tree,
                        reg,
                        chain,
                    );
                chain_is_placed(view, tree, reg, placed@, chain, chain.len() - 1);
            }
        }
    }
    placed
}

/// Whether a block holds a definition or a parameter of a register.
pub open spec fn source(function: FunctionView, tree: Dominance, reg: VReg, at: int) -> bool {
    exists|chain: Seq<int>|
        chain.last() == at && #[trigger] meeting_chain(function, tree, reg, chain)
}

/// Whether everywhere a value from a block meets another is placed.
spec fn spread(
    function: FunctionView,
    tree: Dominance,
    reg: VReg,
    placed: Seq<bool>,
    at: int,
) -> bool {
    forall|y: int|
        0 <= y < function.blocks.len() && #[trigger] meets_at(function, tree, reg, at, y)
            ==> placed[y]
}

pub proof fn source_is_definition(function: FunctionView, tree: Dominance, reg: VReg, at: int)
    requires
        0 <= at < function.blocks.len(),
        defines(function.blocks[at], reg),
    ensures
        source(function, tree, reg, at),
{
    assert(meeting_chain(function, tree, reg, seq![at]));
    assert(seq![at].last() == at);
}

pub proof fn source_spreads(function: FunctionView, tree: Dominance, reg: VReg, from: int, to: int)
    requires
        source(function, tree, reg, from),
        0 <= to < function.blocks.len(),
        meets_at(function, tree, reg, from, to),
    ensures
        values_meet(function, tree, reg, to),
        source(function, tree, reg, to),
{
    let chain = choose|chain: Seq<int>|
        chain.last() == from && #[trigger] meeting_chain(function, tree, reg, chain);
    let longer = chain.push(to);
    assert forall|i: int| 0 < i < longer.len() implies meets_at(
        function,
        tree,
        reg,
        longer[i - 1],
        #[trigger] longer[i],
    ) by {
        if i < chain.len() {
            assert(meets_at(function, tree, reg, chain[i - 1], chain[i]));
        }
    }
    assert(longer.last() == to);
    assert(meeting_chain(function, tree, reg, longer));
}

/// Once nothing is left to look at, every block of a chain but its first is
/// placed.
proof fn chain_is_placed(
    function: FunctionView,
    tree: Dominance,
    reg: VReg,
    placed: Seq<bool>,
    chain: Seq<int>,
    i: int,
)
    requires
        placed.len() == function.blocks.len(),
        meeting_chain(function, tree, reg, chain),
        0 < i < chain.len(),
        forall|b: int|
            0 <= b < placed.len() && (placed[b] || defines(function.blocks[b], reg))
                ==> #[trigger] spread(
                function,
                tree,
                reg,
                placed,
                b,
            ),
    ensures
        placed[chain[i]],
    decreases i,
{
    let from = chain[i - 1];
    if i > 1 {
        chain_is_placed(function, tree, reg, placed, chain, i - 1);
    }
    assert(0 <= chain[i - 1] < function.blocks.len());
    assert(placed[from] || defines(function.blocks[from], reg));
    assert(spread(function, tree, reg, placed, from));
    assert(meets_at(function, tree, reg, chain[i - 1], chain[i]));
    assert(0 <= chain[i] < function.blocks.len());
}

/// Which variable each block needs a parameter for, in a fixed order.
pub fn parameters_wanted(function: &Function, dominators: &Dominators) -> (lists: Vec<Vec<VReg>>)
    requires
        well_formed(function@),
        dominators.well_formed(),
        dominators@.well_formed(),
        dominators@.graph == flow(function@.blocks),
    ensures
        lists@.len() == function.blocks@.len(),
        forall|at: int|
            0 <= at < lists@.len() ==> (#[trigger] lists@[at])@ == wanted(
                function@,
                dominators@,
            )[at],
{
    let ghost view = function@;
    let ghost tree = dominators@;
    let frontiers: Vec<Vec<BlockId>> = dominators.frontiers();
    let live: Liveness = liveness(function);
    let written: Vec<Vec<BlockId>> = written_in(function);
    let count: usize = function.blocks.len();
    let mut lists: Vec<Vec<VReg>> = Vec::new();
    let mut i: usize = 0;
    while i < count
        invariant
            i <= count,
            lists@.len() == i,
            forall|b: int| 0 <= b < i ==> (#[trigger] lists@[b])@ == Seq::<VReg>::empty(),
        decreases count - i,
    {
        lists.push(Vec::new());
        i = i + 1;
    }
    let mut index: usize = 0;
    while index < written.len()
        invariant
            index <= written@.len() == view.names.len(),
            view == function@,
            tree == dominators@,
            well_formed(view),
            tree.well_formed(),
            tree.graph == flow(view.blocks),
            count == view.blocks.len(),
            frontiers@.len() == count,
            forall|x: int, k: int|
                #![trigger frontiers@[x]@[k]]
                0 <= x < frontiers@.len() && 0 <= k < frontiers@[x]@.len() ==> frontiers@[x]@[k].0
                    < count,
            forall|x: int, b: int|
                0 <= x < frontiers@.len() && 0 <= b < count ==> frontiers@[x]@.contains(
                    BlockId(b as u32),
                ) == #[trigger] tree.frontier(x, b),
            live.live_in@.len() == count,
            forall|b: int|
                0 <= b < count ==> roomy(#[trigger] live.live_in@[b], view.names.len()),
            forall|b: int, reg: VReg|
                0 <= b < count ==> #[trigger] live.live_in@[b].has(reg) == live_at(
                    view.blocks,
                    b,
                    reg,
                ),
            forall|r: int, b: int|
                #![trigger written@[r]@.contains(BlockId(b as u32))]
                0 <= r < written@.len() && 0 <= b < count ==> written@[r]@.contains(
                    BlockId(b as u32),
                ) == defines(view.blocks[b], VReg(r as u32)),
            forall|r: int, k: int|
                #![trigger written@[r]@[k]]
                0 <= r < written@.len() && 0 <= k < written@[r]@.len() ==> written@[r]@[k].0
                    < count,
            forall|r: int| 0 <= r < written@.len() ==> (#[trigger] written@[r])@.no_duplicates(),
            lists@.len() == count,
            forall|at: int|
                0 <= at < count ==> (#[trigger] lists@[at])@ == wanted_before(
                    view,
                    tree,
                    at,
                    index as int,
                ),
        decreases written@.len() - index,
    {
        let reg = VReg(index as u32);
        proof {
            apart_when_listed(view, written@[index as int]@, reg);
        }
        if written[index].len() >= 2 {
            let placed: Vec<bool> = meeting_blocks(
                function,
                &frontiers,
                &live,
                &written[index],
                reg,
                Ghost(tree),
            );
            let ghost before = lists@;
            let mut at: usize = 0;
            while at < count
                invariant
                    at <= count,
                    count == view.blocks.len(),
                    before.len() == count,
                    lists@.len() == count,
                    placed@.len() == count,
                    reg == VReg(index as u32),
                    written_apart(view.blocks, reg),
                    forall|b: int|
                        0 <= b < placed@.len() ==> #[trigger] placed@[b] == values_meet(
                            view,
                            tree,
                            reg,
                            b,
                        ),
                    forall|b: int|
                        0 <= b < count ==> (#[trigger] before[b])@ == wanted_before(
                            view,
                            tree,
                            b,
                            index as int,
                        ),
                    forall|b: int|
                        0 <= b < at ==> (#[trigger] lists@[b])@ == wanted_before(
                            view,
                            tree,
                            b,
                            index + 1,
                        ),
                    forall|b: int| at <= b < count ==> #[trigger] lists@[b] == before[b],
                decreases count - at,
            {
                assert(lists@[at as int] == before[at as int]);
                assert(placed@[at as int] == values_meet(view, tree, reg, at as int));
                if placed[at] {
                    lists[at].push(reg);
                }
                at = at + 1;
            }
        } else {
            assert forall|at: int| 0 <= at < count implies (#[trigger] lists@[at])@
                == wanted_before(view, tree, at, index + 1) by {
                assert(!wants(view, tree, reg, at));
            }
        }
        index = index + 1;
    }
    lists
}

proof fn apart_when_listed(function: FunctionView, list: Seq<BlockId>, reg: VReg)
    requires
        function.blocks.len() <= u32::MAX,
        list.no_duplicates(),
        forall|b: int|
            0 <= b < function.blocks.len() ==> #[trigger] list.contains(BlockId(b as u32))
                == defines(function.blocks[b], reg),
        forall|k: int| 0 <= k < list.len() ==> (#[trigger] list[k]).0 < function.blocks.len(),
    ensures
        written_apart(function.blocks, reg) == (list.len() >= 2),
{
    if list.len() >= 2 {
        let a = list[0].0 as int;
        let b = list[1].0 as int;
        assert(list.contains(list[0]) && list.contains(list[1]));
        assert(list[0] == BlockId(a as u32) && list[1] == BlockId(b as u32));
        assert(a != b);
        assert(defines(function.blocks[a], reg) && defines(function.blocks[b], reg));
        if a < b {
            assert(0 <= a < b < function.blocks.len());
        } else {
            assert(0 <= b < a < function.blocks.len());
        }
    }
    if written_apart(function.blocks, reg) {
        let (a, b) = choose|a: int, b: int|
            0 <= a < b < function.blocks.len() && #[trigger] defines(function.blocks[a], reg)
                && #[trigger] defines(function.blocks[b], reg);
        assert(list.contains(BlockId(a as u32)) && list.contains(BlockId(b as u32)));
        let i = choose|i: int| 0 <= i < list.len() && list[i] == BlockId(a as u32);
        let j = choose|j: int| 0 <= j < list.len() && list[j] == BlockId(b as u32);
        assert(i != j);
    }
}

} // verus!
