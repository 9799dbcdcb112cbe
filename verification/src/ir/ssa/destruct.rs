//! Out of SSA form.
//!
//! Each edge's arguments become copies at the end of the block the edge leaves.
//! Machines have no block parameters: SSA is a form the *middle* of the compiler
//! works in, not something a backend has to understand.

use vstd::prelude::*;

use super::form::arities_agree;
use super::names::{Names, NamesView};
use crate::ir::block::{
    block_views, instr_views, Block, BlockKind, BlockView, Target, TargetView, TermView, Terminator,
};
use crate::ir::func::{
    block_within, function_views, hands_nothing, target_args_empty, well_formed, Function,
    FunctionView, Program, ProgramView,
};
use crate::ir::instr::{instr_within, Instr, InstrView};
use crate::ir::value::{value_within, BlockId, VReg, Value};

verus! {

// -- splitting edges --------------------------------------------------------

/// A block on an edge, handing on what the edge carried.
pub open spec fn edge_block(index: int, target: TargetView) -> BlockView {
    BlockView {
        kind: BlockKind::Edge,
        params: seq![],
        index: index as u32,
        instrs: seq![],
        term: TermView::Jump(target),
    }
}

/// Blocks with one exit of one of them going through a block of its own, where
/// it carries anything.
pub open spec fn split_exit(blocks: Seq<BlockView>, index: int, position: int) -> Seq<BlockView> {
    let block = blocks[index];
    let targets = block.term.targets();
    let target = targets[position];
    if target.args.len() == 0 {
        blocks
    } else {
        let through = TargetView::plain(BlockId(blocks.len() as u32));
        blocks.update(
            index,
            BlockView {
                term: block.term.with_targets(targets.update(position, through)),
                ..block
            },
        ).push(edge_block(blocks.len() as int, target))
    }
}

/// Blocks with the exits of one of them split, where it has several.
pub open spec fn split_exits(blocks: Seq<BlockView>, index: int) -> Seq<BlockView> {
    if blocks[index].term.targets().len() < 2 {
        blocks
    } else {
        split_exit(split_exit(blocks, index, 0), index, 1)
    }
}

/// Blocks with the exits of the first `n` split.
pub open spec fn split_before(blocks: Seq<BlockView>, n: int) -> Seq<BlockView>
    decreases n,
{
    if n <= 0 {
        blocks
    } else {
        split_exits(split_before(blocks, n - 1), n - 1)
    }
}

/// Blocks with every argument-carrying edge that leaves a block by one of
/// several exits going through a block of its own.
pub open spec fn split(blocks: Seq<BlockView>) -> Seq<BlockView> {
    split_before(blocks, blocks.len() as int)
}

// -- parallel assignment ----------------------------------------------------

/// A destination and what it is to hold.
pub type Move = (VReg, Value);

/// Parameters and the arguments handed to them.
pub open spec fn paired(params: Seq<VReg>, args: Seq<Value>) -> Seq<Move> {
    Seq::new(
        if params.len() <= args.len() {
            params.len()
        } else {
            args.len()
        },
        |i: int| (params[i], args[i]),
    )
}

/// What is written.
pub open spec fn destinations(parallel: Seq<Move>) -> Seq<VReg> {
    parallel.map_values(|m: Move| m.0)
}

/// Whether a source would be lost to a write before it is read.
pub open spec fn at_risk(parallel: Seq<Move>, m: Move) -> bool {
    match m.1 {
        Value::Reg(reg) => reg != m.0 && destinations(parallel).contains(reg),
        Value::Const(_) => false,
    }
}

/// What has been put aside, and what is left to write.
#[verifier::ext_equal]
pub struct Sequencing {
    pub names: NamesView,
    pub saves: Seq<InstrView>,
    pub writes: Seq<Move>,
}

/// The first `n` moves with every source at risk read into a register of its
/// own.
pub open spec fn saved_before(names: NamesView, parallel: Seq<Move>, n: int) -> Sequencing
    decreases n,
{
    if n <= 0 {
        Sequencing { names, saves: seq![], writes: seq![] }
    } else {
        let so_far = saved_before(names, parallel, n - 1);
        let m = parallel[n - 1];
        if at_risk(parallel, m) {
            let saved = so_far.names.fresh();
            Sequencing {
                names: so_far.names.copy_of((m.1->Reg_0)),
                saves: so_far.saves.push(InstrView::Copy { dst: saved, src: m.1 }),
                writes: so_far.writes.push((m.0, Value::Reg(saved))),
            }
        } else {
            Sequencing { writes: so_far.writes.push(m), ..so_far }
        }
    }
}

/// The first `n` moves as copies. A parameter handed its own definition back is
/// a copy of a register to itself, and needs none.
pub open spec fn written_out(writes: Seq<Move>, n: int) -> Seq<InstrView>
    decreases n,
{
    if n <= 0 {
        seq![]
    } else {
        let rest = written_out(writes, n - 1);
        let (dst, src) = writes[n - 1];
        if src == Value::Reg(dst) {
            rest
        } else {
            rest.push(InstrView::Copy { dst, src })
        }
    }
}

/// A parallel assignment as a sequence of copies meaning the same thing.
pub open spec fn sequenced(names: NamesView, parallel: Seq<Move>) -> (Seq<InstrView>, NamesView) {
    let all = saved_before(names, parallel, parallel.len() as int);
    (all.saves + written_out(all.writes, all.writes.len() as int), all.names)
}

// -- the whole function -----------------------------------------------------

/// What the end of a block has to copy: what its one exit hands its block.
pub open spec fn moves_of(blocks: Seq<BlockView>, index: int) -> Seq<Move> {
    match blocks[index].term {
        TermView::Jump(target) => paired(blocks[target.block.0 as int].params, target.args),
        _ => seq![],
    }
}

/// An ending that hands nothing on.
pub open spec fn bare_term(term: TermView) -> TermView {
    term.with_targets(
        term.targets().map_values(|target: TargetView| TargetView::plain(target.block)),
    )
}

/// A block without parameters and arguments, and with copies at its end.
pub open spec fn bare_block(block: BlockView, copies: Seq<InstrView>) -> BlockView {
    BlockView {
        params: seq![],
        instrs: block.instrs + copies,
        term: bare_term(block.term),
        ..block
    }
}

/// The first `n` of blocks whose edges are split, without parameters and
/// arguments.
pub open spec fn bared(blocks: Seq<BlockView>, names: NamesView, n: int) -> (
    Seq<BlockView>,
    NamesView,
)
    decreases n,
{
    if n <= 0 {
        (seq![], names)
    } else {
        let (done, at) = bared(blocks, names, n - 1);
        let (copies, after) = sequenced(at, moves_of(blocks, n - 1));
        (done.push(bare_block(blocks[n - 1], copies)), after)
    }
}

/// A function out of SSA form.
pub open spec fn destructed(function: FunctionView) -> FunctionView {
    let blocks = split(function.blocks);
    let (done, names) = bared(blocks, NamesView::of(function.names), blocks.len() as int);
    FunctionView { blocks: done, names: names.names, ..function }
}

/// Whether a function can be taken out of SSA form: every edge hands its block
/// one value for each parameter, and the blocks and registers there are to be
/// can be numbered.
pub open spec fn destructible(function: FunctionView) -> bool {
    &&& well_formed(function)
    &&& arities_agree(function.blocks)
    &&& destructed(function).blocks.len() <= u32::MAX
    &&& destructed(function).names.len() <= u32::MAX
}

// -- what splitting keeps ---------------------------------------------------

/// Whether a block leaves by one exit at most, or hands nothing on.
pub open spec fn settles(block: BlockView) -> bool {
    block.term.targets().len() < 2 || target_args_empty(block)
}

/// What holds of blocks some of whose exits have been split.
pub open spec fn splits_well(blocks: Seq<BlockView>, registers: nat) -> bool {
    &&& arities_agree(blocks)
    &&& forall|b: int|
        0 <= b < blocks.len() ==> block_within(#[trigger] blocks[b], registers, blocks.len())
            && blocks[b].index == b
}

proof fn split_exit_well(blocks: Seq<BlockView>, index: int, position: int, registers: nat)
    requires
        splits_well(blocks, registers),
        0 <= index < blocks.len(),
        0 <= position < blocks[index].term.targets().len(),
        split_exit(blocks, index, position).len() <= u32::MAX,
    ensures
        ({
            let after = split_exit(blocks, index, position);
            &&& splits_well(after, registers)
            &&& blocks.len() <= after.len() <= blocks.len() + 1
            &&& after[index].term.targets().len() == blocks[index].term.targets().len()
            &&& after[index].term.targets()[position].args.len() == 0
            &&& forall|p: int|
                0 <= p < blocks[index].term.targets().len() && p != position
                    ==> after[index].term.targets()[p] == blocks[index].term.targets()[p]
            &&& forall|b: int|
                0 <= b < blocks.len() && b != index ==> #[trigger] after[b] == blocks[b]
            &&& forall|b: int|
                blocks.len() <= b < after.len() ==> (#[trigger] after[b]).term.targets().len() == 1
            &&& after[index].instrs == blocks[index].instrs
            &&& after[index].kind == blocks[index].kind
        }),
{
    let after = split_exit(blocks, index, position);
    let block = blocks[index];
    let targets = block.term.targets();
    let target = targets[position];
    if target.args.len() > 0 {
        let n = blocks.len() as int;
        let through = TargetView::plain(BlockId(n as u32));
        let moved = targets.update(position, through);
        let edge = edge_block(n, target);
        assert(block_within(block, registers, blocks.len()));
        assert(after[index].term.targets() =~= moved);
        assert(after[n] == edge);
        assert(edge.term.targets() =~= seq![target]);
        assert(targets[position].block.0 < blocks.len());
        exits_within(block.term, registers);
        assert(block_within(edge, registers, after.len())) by {
            assert forall|i: int| 0 <= i < edge.term.operands().len() implies value_within(
                #[trigger] edge.term.operands()[i],
                registers,
            ) by {
                assert(edge.term.operands()[i] == targets[position].args[i]);
            }
        }
        assert(block_within(after[index], registers, after.len())) by {
            let term = after[index].term;
            assert forall|i: int| 0 <= i < term.targets().len() implies (
            #[trigger] term.targets()[i]).block.0 < after.len() by {
                if i != position {
                    assert(targets[i].block.0 < blocks.len());
                }
            }
            assert forall|i: int| 0 <= i < term.operands().len() implies value_within(
                #[trigger] term.operands()[i],
                registers,
            ) by {
                match block.term {
                    TermView::Branch { cond, then_blk, else_blk } => {
                        if i == 0 {
                            assert(block.term.operands()[0] == cond);
                        } else if position == 0 {
                            assert(term.operands()[i] == targets[1].args[i - 1]);
                        } else {
                            assert(term.operands()[i] == targets[0].args[i - 1]);
                        }
                    },
                    _ => {},
                }
            }
        }
        assert forall|b: int| 0 <= b < after.len() implies block_within(
            #[trigger] after[b],
            registers,
            after.len(),
        ) && after[b].index == b by {
            if b < n && b != index {
                assert(after[b] == blocks[b]);
                assert(block_within(blocks[b], registers, blocks.len()));
                assert forall|i: int| 0 <= i < after[b].term.targets().len() implies (
                #[trigger] after[b].term.targets()[i]).block.0 < after.len() by {
                    assert(blocks[b].term.targets()[i].block.0 < blocks.len());
                }
            } else if b == index {
                assert(blocks[b].index == b);
            }
        }
        assert forall|b: int, i: int|
            #![trigger after[b].term.targets()[i]]
            0 <= b < after.len() && 0 <= i < after[b].term.targets().len() implies after[b].term.targets()[i].args.len()
            == after[after[b].term.targets()[i].block.0 as int].params.len() by {
            if b == n {
                assert(after[b].term.targets()[i] == targets[position]);
                assert(blocks[index].term.targets()[position].args.len()
                    == blocks[target.block.0 as int].params.len());
            } else if b == index {
                if i == position {
                    assert(after[n].params.len() == 0);
                } else {
                    assert(after[b].term.targets()[i] == blocks[b].term.targets()[i]);
                    assert(targets[i].block.0 < blocks.len());
                }
            } else {
                assert(after[b] == blocks[b]);
                assert(block_within(blocks[b], registers, blocks.len()));
                assert(blocks[b].term.targets()[i].block.0 < blocks.len());
            }
        }
    }
}

/// Everything an exit hands on is one of the operands of its ending.
proof fn exits_within(term: TermView, registers: nat)
    requires
        forall|i: int|
            0 <= i < term.operands().len() ==> value_within(
                #[trigger] term.operands()[i],
                registers,
            ),
    ensures
        forall|p: int, i: int|
            #![trigger term.targets()[p].args[i]]
            0 <= p < term.targets().len() && 0 <= i < term.targets()[p].args.len()
                ==> value_within(term.targets()[p].args[i], registers),
{
    assert forall|p: int, i: int|
        #![trigger term.targets()[p].args[i]]
        0 <= p < term.targets().len() && 0 <= i < term.targets()[p].args.len() implies value_within(
        term.targets()[p].args[i],
        registers,
    ) by {
        match term {
            TermView::Jump(target) => {
                assert(term.operands()[i] == target.args[i]);
            },
            TermView::Branch { cond, then_blk, else_blk } => {
                if p == 0 {
                    assert(term.operands()[i + 1] == then_blk.args[i]);
                } else {
                    assert(term.operands()[i + 1 + then_blk.args.len()] == else_blk.args[i]);
                }
            },
            TermView::Return(_) => {},
        }
    }
}

proof fn split_exits_grow(blocks: Seq<BlockView>, index: int)
    requires
        0 <= index < blocks.len(),
    ensures
        blocks.len() <= split_exits(blocks, index).len(),
        split_exit(blocks, index, 0).len() <= split_exit(
            split_exit(blocks, index, 0),
            index,
            1,
        ).len(),
{
}

pub proof fn split_grows(blocks: Seq<BlockView>, a: int, b: int)
    requires
        0 <= a <= b <= blocks.len(),
    ensures
        split_before(blocks, a).len() <= split_before(blocks, b).len(),
        blocks.len() <= split_before(blocks, a).len(),
    decreases b,
{
    if a < b {
        split_grows(blocks, a, b - 1);
        split_grows(blocks, b - 1, b - 1);
        split_exits_grow(split_before(blocks, b - 1), b - 1);
    } else if a > 0 {
        split_grows(blocks, a - 1, a - 1);
        split_exits_grow(split_before(blocks, a - 1), a - 1);
    }
}

/// Blocks with their edges split are whole, and none that has several exits
/// hands anything on.
pub proof fn split_well(blocks: Seq<BlockView>, n: int, registers: nat)
    requires
        splits_well(blocks, registers),
        0 <= n <= blocks.len(),
        split_before(blocks, n).len() <= u32::MAX,
    ensures
        splits_well(split_before(blocks, n), registers),
        blocks.len() <= split_before(blocks, n).len(),
        forall|b: int|
            0 <= b < n || blocks.len() <= b < split_before(blocks, n).len() ==> settles(
                #[trigger] split_before(blocks, n)[b],
            ),
        forall|b: int|
            n <= b < blocks.len() ==> #[trigger] split_before(blocks, n)[b] == blocks[b],
        forall|b: int|
            0 <= b < blocks.len() ==> (#[trigger] split_before(blocks, n)[b]).instrs
                == blocks[b].instrs && split_before(blocks, n)[b].kind == blocks[b].kind,
    decreases n,
{
    if n > 0 {
        let before = split_before(blocks, n - 1);
        let index = n - 1;
        split_grows(blocks, n - 1, n);
        split_well(blocks, n - 1, registers);
        let after = split_before(blocks, n);
        if before[index].term.targets().len() >= 2 {
            let middle = split_exit(before, index, 0);
            split_exits_grow(before, index);
            split_exit_well(before, index, 0, registers);
            assert(middle[index].term.targets().len() == before[index].term.targets().len());
            split_exit_well(middle, index, 1, registers);
            assert(target_args_empty(after[index])) by {
                assert forall|i: int| 0 <= i < after[index].term.targets().len() implies (
                #[trigger] after[index].term.targets()[i]).args.len() == 0 by {
                    if i == 0 {
                        assert(after[index].term.targets()[0] == middle[index].term.targets()[0]);
                    }
                }
            }
            assert forall|b: int|
                0 <= b < n || blocks.len() <= b < after.len() implies settles(
                #[trigger] after[b],
            ) by {
                if b < n - 1 {
                    assert(middle[b] == before[b]);
                    assert(after[b] == middle[b]);
                } else if b >= blocks.len() {
                    if b < before.len() {
                        assert(middle[b] == before[b]);
                    }
                    if b < middle.len() {
                        assert(after[b] == middle[b]);
                    }
                }
            }
            assert forall|b: int| n <= b < blocks.len() implies #[trigger] after[b]
                == blocks[b] by {
                assert(middle[b] == before[b]);
            }
            assert forall|b: int| 0 <= b < blocks.len() implies (#[trigger] after[b]).instrs
                == blocks[b].instrs && after[b].kind == blocks[b].kind by {
                if b != index {
                    assert(middle[b] == before[b]);
                    assert(after[b] == middle[b]);
                }
            }
        }
    }
}

// -- what sequencing means --------------------------------------------------

/// What an operand is worth, given what every register holds.
pub open spec fn worth(value: Value, held: Seq<int>) -> int {
    match value {
        Value::Const(n) => n as int,
        Value::Reg(reg) => held[reg.0 as int],
    }
}

/// What every register holds once the first `n` of a run of copies are done.
pub open spec fn copied(copies: Seq<InstrView>, held: Seq<int>, n: int) -> Seq<int>
    decreases n,
{
    if n <= 0 {
        held
    } else {
        let before = copied(copies, held, n - 1);
        match copies[n - 1] {
            InstrView::Copy { dst, src } => before.update(dst.0 as int, worth(src, before)),
            _ => before,
        }
    }
}

proof fn copied_agrees(a: Seq<InstrView>, b: Seq<InstrView>, held: Seq<int>, n: int)
    requires
        0 <= n <= a.len(),
        n <= b.len(),
        forall|i: int| 0 <= i < n ==> a[i] == b[i],
    ensures
        copied(a, held, n) == copied(b, held, n),
    decreases n,
{
    if n > 0 {
        copied_agrees(a, b, held, n - 1);
    }
}

proof fn copied_in_two(a: Seq<InstrView>, b: Seq<InstrView>, held: Seq<int>, n: int)
    requires
        0 <= n <= b.len(),
    ensures
        copied(a + b, held, a.len() + n) == copied(b, copied(a, held, a.len() as int), n),
    decreases n,
{
    if n > 0 {
        copied_in_two(a, b, held, n - 1);
        assert((a + b)[a.len() + n - 1] == b[n - 1]);
    } else {
        copied_agrees(a + b, a, held, a.len() as int);
    }
}

/// Whether the registers of a run of moves exist.
pub open spec fn moves_within(parallel: Seq<Move>, count: nat) -> bool {
    forall|i: int|
        0 <= i < parallel.len() ==> (#[trigger] parallel[i]).0.0 < count && value_within(
            parallel[i].1,
            count,
        )
}

/// Whether no two of a run of moves write the same register.
pub open spec fn writes_apart(parallel: Seq<Move>) -> bool {
    forall|i: int, j: int|
        0 <= i < j < parallel.len() ==> (#[trigger] parallel[i]).0 != (#[trigger] parallel[j]).0
}

/// What putting sources aside does: the registers there were hold what they
/// held, and every move left to write gets its source's value.
proof fn saves_hold(names: NamesView, parallel: Seq<Move>, held: Seq<int>, n: int)
    requires
        0 <= n <= parallel.len(),
        moves_within(parallel, names.names.len()),
        saved_before(names, parallel, n).names.names.len() <= held.len(),
        saved_before(names, parallel, n).names.names.len() <= u32::MAX,
    ensures
        ({
            let so_far = saved_before(names, parallel, n);
            let now = copied(so_far.saves, held, so_far.saves.len() as int);
            &&& names.names.len() <= so_far.names.names.len()
            &&& so_far.writes.len() == n
            &&& now.len() == held.len()
            &&& forall|r: int| 0 <= r < names.names.len() ==> #[trigger] now[r] == held[r]
            &&& forall|r: int|
                so_far.names.names.len() <= r < held.len() ==> #[trigger] now[r] == held[r]
            &&& forall|i: int|
                0 <= i < n ==> (#[trigger] so_far.writes[i]).0 == parallel[i].0 && worth(
                    so_far.writes[i].1,
                    now,
                ) == worth(parallel[i].1, held) && value_within(
                    so_far.writes[i].1,
                    so_far.names.names.len(),
                ) && (match so_far.writes[i].1 {
                    Value::Reg(reg) => reg == parallel[i].0 || reg.0 >= names.names.len()
                        || !destinations(parallel).contains(reg),
                    Value::Const(_) => true,
                })
        }),
    decreases n,
{
    if n > 0 {
        let before = saved_before(names, parallel, n - 1);
        let after = saved_before(names, parallel, n);
        let m = parallel[n - 1];
        saves_hold(names, parallel, held, n - 1);
        let then = copied(before.saves, held, before.saves.len() as int);
        let now = copied(after.saves, held, after.saves.len() as int);
        assert(m.0.0 < names.names.len() && value_within(m.1, names.names.len()));
        if at_risk(parallel, m) {
            copied_agrees(after.saves, before.saves, held, before.saves.len() as int);
            let saved = before.names.fresh();
            assert(after.saves[before.saves.len() as int] == InstrView::Copy {
                dst: saved,
                src: m.1,
            });
            assert(now == then.update(saved.0 as int, worth(m.1, then)));
            assert forall|i: int| 0 <= i < n implies (#[trigger] after.writes[i]).0 == parallel[i].0
                && worth(after.writes[i].1, now) == worth(parallel[i].1, held) && value_within(
                after.writes[i].1,
                after.names.names.len(),
            ) && (match after.writes[i].1 {
                Value::Reg(reg) => reg == parallel[i].0 || reg.0 >= names.names.len()
                    || !destinations(parallel).contains(reg),
                Value::Const(_) => true,
            }) by {
                if i < n - 1 {
                    assert(after.writes[i] == before.writes[i]);
                }
            }
        } else {
            assert forall|i: int| 0 <= i < n implies (#[trigger] after.writes[i]).0 == parallel[i].0
                && worth(after.writes[i].1, now) == worth(parallel[i].1, held) && value_within(
                after.writes[i].1,
                after.names.names.len(),
            ) && (match after.writes[i].1 {
                Value::Reg(reg) => reg == parallel[i].0 || reg.0 >= names.names.len()
                    || !destinations(parallel).contains(reg),
                Value::Const(_) => true,
            }) by {
                if i < n - 1 {
                    assert(after.writes[i] == before.writes[i]);
                }
            }
        }
    }
}

/// What writing does, once nothing that is read later is written.
proof fn writes_land(writes: Seq<Move>, parallel: Seq<Move>, held: Seq<int>, count: nat, n: int)
    requires
        0 <= n <= writes.len() == parallel.len(),
        writes_apart(parallel),
        moves_within(parallel, count),
        count <= held.len(),
        forall|i: int|
            0 <= i < writes.len() ==> (#[trigger] writes[i]).0 == parallel[i].0 && value_within(
                writes[i].1,
                held.len(),
            ) && (match writes[i].1 {
                Value::Reg(reg) => reg == parallel[i].0 || reg.0 >= count || !destinations(
                    parallel,
                ).contains(reg),
                Value::Const(_) => true,
            }),
    ensures
        ({
            let out = written_out(writes, n);
            let now = copied(out, held, out.len() as int);
            &&& now.len() == held.len()
            &&& forall|i: int|
                0 <= i < n ==> now[(#[trigger] writes[i]).0.0 as int] == worth(writes[i].1, held)
            &&& forall|r: int|
                0 <= r < held.len() && (forall|i: int|
                    0 <= i < n ==> (#[trigger] writes[i]).0.0 != r) ==> #[trigger] now[r]
                    == held[r]
        }),
    decreases n,
{
    if n > 0 {
        writes_land(writes, parallel, held, count, n - 1);
        let before = written_out(writes, n - 1);
        let after = written_out(writes, n);
        let then = copied(before, held, before.len() as int);
        let now = copied(after, held, after.len() as int);
        let (dst, src) = writes[n - 1];
        assert(parallel[n - 1].0 == dst);
        assert(dst.0 < count);
        // The source still holds what it held.
        assert(worth(src, then) == worth(src, held)) by {
            if let Value::Reg(reg) = src {
                assert forall|i: int| 0 <= i < n - 1 implies (#[trigger] writes[i]).0.0 != reg.0 by {
                    assert(parallel[i].0 == writes[i].0);
                    assert(parallel[i].0 != parallel[n - 1].0);
                    assert(parallel[i].0.0 < count);
                    if writes[i].0.0 == reg.0 {
                        assert(destinations(parallel)[i] == reg);
                        assert(destinations(parallel).contains(reg));
                    }
                }
            }
        }
        if src == Value::Reg(dst) {
            assert(after == before);
            assert forall|i: int| 0 <= i < n implies now[(#[trigger] writes[i]).0.0 as int]
                == worth(writes[i].1, held) by {
                if i == n - 1 {
                    assert(worth(src, then) == worth(src, held));
                }
            }
        } else {
            copied_agrees(after, before, held, before.len() as int);
            assert(after[before.len() as int] == InstrView::Copy { dst, src });
            assert(now == then.update(dst.0 as int, worth(src, then)));
            assert forall|i: int| 0 <= i < n implies now[(#[trigger] writes[i]).0.0 as int]
                == worth(writes[i].1, held) by {
                if i < n - 1 {
                    assert(parallel[i].0 == writes[i].0);
                    assert(parallel[i].0 != parallel[n - 1].0);
                }
            }
        }
        assert forall|r: int|
            0 <= r < held.len() && (forall|i: int|
                0 <= i < n ==> (#[trigger] writes[i]).0.0 != r) implies #[trigger] now[r]
            == held[r] by {
            assert(writes[n - 1].0.0 != r);
            assert(then[r] == held[r]);
        }
    }
}

/// Every copy on one edge happens **at once**: whatever the registers hold, each
/// destination ends up with what its source held at the start, and every other
/// register there was holds what it held.
pub proof fn sequencing_is_parallel(names: NamesView, parallel: Seq<Move>, held: Seq<int>)
    requires
        moves_within(parallel, names.names.len()),
        writes_apart(parallel),
        sequenced(names, parallel).1.names.len() <= held.len(),
        sequenced(names, parallel).1.names.len() <= u32::MAX,
    ensures
        ({
            let copies = sequenced(names, parallel).0;
            let now = copied(copies, held, copies.len() as int);
            &&& forall|i: int|
                0 <= i < parallel.len() ==> now[(#[trigger] parallel[i]).0.0 as int] == worth(
                    parallel[i].1,
                    held,
                )
            &&& forall|r: int|
                0 <= r < names.names.len() && !destinations(parallel).contains(VReg(r as u32))
                    ==> #[trigger] now[r] == held[r]
        }),
{
    let n = parallel.len() as int;
    let all = saved_before(names, parallel, n);
    let out = written_out(all.writes, all.writes.len() as int);
    let copies = all.saves + out;
    saves_hold(names, parallel, held, n);
    let then = copied(all.saves, held, all.saves.len() as int);
    let now = copied(copies, held, copies.len() as int);
    copied_in_two(all.saves, out, held, out.len() as int);
    assert forall|i: int| 0 <= i < all.writes.len() implies (#[trigger] all.writes[i]).0
        == parallel[i].0 && value_within(all.writes[i].1, then.len()) && (match all.writes[i].1 {
        Value::Reg(reg) => reg == parallel[i].0 || reg.0 >= names.names.len() || !destinations(
            parallel,
        ).contains(reg),
        Value::Const(_) => true,
    }) by {}
    writes_land(all.writes, parallel, then, names.names.len(), n);
    assert forall|i: int| 0 <= i < parallel.len() implies now[(#[trigger] parallel[i]).0.0 as int]
        == worth(parallel[i].1, held) by {
        assert(all.writes[i].0 == parallel[i].0);
    }
    assert forall|r: int|
        0 <= r < names.names.len() && !destinations(parallel).contains(
            VReg(r as u32),
        ) implies #[trigger] now[r] == held[r] by {
        assert forall|i: int| 0 <= i < n implies (#[trigger] all.writes[i]).0.0 != r by {
            assert(destinations(parallel)[i] == all.writes[i].0);
            if all.writes[i].0.0 == r {
                assert(destinations(parallel)[i] == VReg(r as u32));
            }
        }
    }
}

// -- what destruction leaves ------------------------------------------------

pub proof fn saves_grow(names: NamesView, parallel: Seq<Move>, a: int, b: int)
    requires
        0 <= a <= b,
    ensures
        saved_before(names, parallel, a).names.names.len() <= saved_before(
            names,
            parallel,
            b,
        ).names.names.len(),
        names.names.len() <= saved_before(names, parallel, a).names.names.len(),
    decreases b,
{
    if a < b {
        saves_grow(names, parallel, a, b - 1);
    } else if a > 0 {
        saves_grow(names, parallel, a - 1, a - 1);
    }
}

pub proof fn bared_grows(blocks: Seq<BlockView>, names: NamesView, a: int, b: int)
    requires
        0 <= a <= b,
    ensures
        bared(blocks, names, a).1.names.len() <= bared(blocks, names, b).1.names.len(),
        names.names.len() <= bared(blocks, names, a).1.names.len(),
    decreases b,
{
    if a < b {
        bared_grows(blocks, names, a, b - 1);
        let at = bared(blocks, names, b - 1).1;
        let moves = moves_of(blocks, b - 1);
        saves_grow(at, moves, 0, moves.len() as int);
    } else if a > 0 {
        bared_grows(blocks, names, a - 1, a - 1);
        let at = bared(blocks, names, a - 1).1;
        let moves = moves_of(blocks, a - 1);
        saves_grow(at, moves, 0, moves.len() as int);
    }
}

/// The copies of a sequence name registers there are.
pub proof fn saves_within(names: NamesView, parallel: Seq<Move>, n: int)
    requires
        0 <= n <= parallel.len(),
        moves_within(parallel, names.names.len()),
        saved_before(names, parallel, n).names.names.len() <= u32::MAX,
    ensures
        ({
            let so_far = saved_before(names, parallel, n);
            &&& so_far.writes.len() == n
            &&& moves_within(so_far.writes, so_far.names.names.len())
            &&& forall|k: int|
                0 <= k < so_far.saves.len() ==> instr_within(
                    #[trigger] so_far.saves[k],
                    so_far.names.names.len(),
                )
        }),
    decreases n,
{
    saves_grow(names, parallel, 0, n);
    if n > 0 {
        let before = saved_before(names, parallel, n - 1);
        let after = saved_before(names, parallel, n);
        let m = parallel[n - 1];
        saves_grow(names, parallel, n - 1, n);
        saves_within(names, parallel, n - 1);
        assert(m.0.0 < names.names.len() && value_within(m.1, names.names.len()));
        assert forall|i: int| 0 <= i < n implies (#[trigger] after.writes[i]).0.0
            < after.names.names.len() && value_within(
            after.writes[i].1,
            after.names.names.len(),
        ) by {
            if i < n - 1 {
                assert(after.writes[i] == before.writes[i]);
            }
        }
        assert forall|k: int| 0 <= k < after.saves.len() implies instr_within(
            #[trigger] after.saves[k],
            after.names.names.len(),
        ) by {
            if k < before.saves.len() {
                assert(after.saves[k] == before.saves[k]);
                copy_within(before.saves[k], before.names.names.len(), after.names.names.len());
            }
        }
    }
}

proof fn copy_within(instr: InstrView, few: nat, more: nat)
    requires
        few <= more,
        instr_within(instr, few),
    ensures
        instr_within(instr, more),
{
    assert forall|i: int| 0 <= i < instr.operands().len() implies value_within(
        #[trigger] instr.operands()[i],
        more,
    ) by {
        assert(value_within(instr.operands()[i], few));
    }
}

pub proof fn written_out_within(writes: Seq<Move>, n: int, count: nat)
    requires
        0 <= n <= writes.len(),
        moves_within(writes, count),
    ensures
        forall|k: int|
            0 <= k < written_out(writes, n).len() ==> instr_within(
                #[trigger] written_out(writes, n)[k],
                count,
            ) && written_out(writes, n)[k] is Copy,
    decreases n,
{
    if n > 0 {
        written_out_within(writes, n - 1, count);
        let before = written_out(writes, n - 1);
        let after = written_out(writes, n);
        assert(writes[n - 1].0.0 < count);
        assert forall|k: int| 0 <= k < after.len() implies instr_within(
            #[trigger] after[k],
            count,
        ) && after[k] is Copy by {
            if k < before.len() {
                assert(after[k] == before[k]);
            }
        }
    }
}

pub proof fn moves_are_within(blocks: Seq<BlockView>, index: int, registers: nat, count: nat)
    requires
        splits_well(blocks, registers),
        0 <= index < blocks.len(),
        registers <= count,
    ensures
        moves_within(moves_of(blocks, index), count),
{
    let moves = moves_of(blocks, index);
    let block = blocks[index];
    assert(block_within(block, registers, blocks.len()));
    if let TermView::Jump(target) = block.term {
        let to = target.block.0 as int;
        assert(block.term.targets()[0] == target);
        assert(to < blocks.len());
        assert(block_within(blocks[to], registers, blocks.len()));
        assert forall|i: int| 0 <= i < moves.len() implies (#[trigger] moves[i]).0.0 < count
            && value_within(moves[i].1, count) by {
            assert(blocks[to].params[i].0 < registers);
            assert(block.term.operands()[i] == target.args[i]);
        }
    }
}

/// What each block is once it hands nothing on and is handed nothing.
proof fn bared_well(blocks: Seq<BlockView>, names: NamesView, n: int)
    requires
        0 <= n <= blocks.len(),
        splits_well(blocks, names.names.len()),
        bared(blocks, names, n).1.names.len() <= u32::MAX,
    ensures
        ({
            let (done, after) = bared(blocks, names, n);
            &&& done.len() == n
            &&& forall|b: int|
                0 <= b < n ==> block_within(
                    #[trigger] done[b],
                    after.names.len(),
                    blocks.len(),
                ) && done[b].index == b && done[b].params.len() == 0 && target_args_empty(done[b])
                    && done[b].kind == blocks[b].kind && done[b].term.successors()
                    == blocks[b].term.successors() && (settles(blocks[b])
                    && blocks[b].term.targets().len() != 1 ==> done[b].instrs == blocks[b].instrs)
        }),
    decreases n,
{
    if n > 0 {
        let (before, at) = bared(blocks, names, n - 1);
        let (done, after) = bared(blocks, names, n);
        let block = blocks[n - 1];
        let moves = moves_of(blocks, n - 1);
        bared_grows(blocks, names, n - 1, n);
        bared_well(blocks, names, n - 1);
        moves_are_within(blocks, n - 1, names.names.len(), at.names.len());
        saves_grow(at, moves, 0, moves.len() as int);
        saves_within(at, moves, moves.len() as int);
        let all = saved_before(at, moves, moves.len() as int);
        written_out_within(all.writes, all.writes.len() as int, after.names.len());
        let copies = sequenced(at, moves).0;
        assert(block_within(block, names.names.len(), blocks.len()));
        let last = done[n - 1];
        assert(last == bare_block(block, copies));
        let plain = block.term.targets().map_values(
            |target: TargetView| TargetView::plain(target.block),
        );
        assert(last.term.targets() =~= plain);
        assert(last.term.successors() =~= block.term.successors());
        assert forall|i: int| 0 <= i < last.instrs.len() implies instr_within(
            #[trigger] last.instrs[i],
            after.names.len(),
        ) by {
            if i < block.instrs.len() {
                assert(last.instrs[i] == block.instrs[i]);
                copy_within(block.instrs[i], names.names.len(), after.names.len());
            } else {
                assert(last.instrs[i] == copies[i - block.instrs.len()]);
            }
        }
        assert forall|i: int| 0 <= i < last.term.targets().len() implies (
        #[trigger] last.term.targets()[i]).block.0 < blocks.len() by {
            assert(block.term.targets()[i].block.0 < blocks.len());
        }
        assert forall|i: int| 0 <= i < last.term.operands().len() implies value_within(
            #[trigger] last.term.operands()[i],
            after.names.len(),
        ) by {
            assert(last.term.operands()[i] == block.term.operands()[i]);
        }
        assert(block_within(last, after.names.len(), blocks.len()));
        if settles(block) && block.term.targets().len() != 1 {
            assert(moves =~= seq![]);
            assert(copies =~= seq![]);
            assert(last.instrs =~= block.instrs);
        }
        assert forall|b: int| 0 <= b < n implies block_within(
            #[trigger] done[b],
            after.names.len(),
            blocks.len(),
        ) && done[b].index == b && done[b].params.len() == 0 && target_args_empty(done[b])
            && done[b].kind == blocks[b].kind && done[b].term.successors()
            == blocks[b].term.successors() && (settles(blocks[b]) && blocks[b].term.targets().len()
            != 1 ==> done[b].instrs == blocks[b].instrs) by {
            if b < n - 1 {
                assert(done[b] == before[b]);
                super::form::block_within_more(
                    before[b],
                    at.names.len(),
                    after.names.len(),
                    blocks.len(),
                );
            }
        }
    }
}

/// A function taken out of SSA form has **no parameter and no argument left**,
/// and everything it names exists. A block that leaves by several exits holds
/// the instructions it held: the copies for one of its exits would run on the
/// other too.
pub proof fn destruction_leaves_nothing_handed(function: FunctionView)
    requires
        destructible(function),
    ensures
        well_formed(destructed(function)),
        hands_nothing(destructed(function).blocks),
        function.blocks.len() <= destructed(function).blocks.len(),
        forall|b: int|
            0 <= b < function.blocks.len() && function.blocks[b].term.targets().len() >= 2 ==> (
            #[trigger] destructed(function).blocks[b]).instrs == function.blocks[b].instrs,
{
    let names = NamesView::of(function.names);
    let blocks = split(function.blocks);
    let after = destructed(function);
    assert(splits_well(function.blocks, function.names.len()));
    split_grows(function.blocks, function.blocks.len() as int, function.blocks.len() as int);
    bared_length(blocks, names, blocks.len() as int);
    split_well(function.blocks, function.blocks.len() as int, function.names.len());
    bared_well(blocks, names, blocks.len() as int);
    bared_grows(blocks, names, 0, blocks.len() as int);
    assert forall|b: int|
        0 <= b < function.blocks.len() && function.blocks[b].term.targets().len() >= 2 implies (
    #[trigger] after.blocks[b]).instrs == function.blocks[b].instrs by {
        assert(settles(blocks[b]));
        split_keeps_exits(function.blocks, b, function.blocks.len() as int, function.names.len());
    }
}

pub proof fn bared_length(blocks: Seq<BlockView>, names: NamesView, n: int)
    requires
        n >= 0,
    ensures
        bared(blocks, names, n).0.len() == n,
    decreases n,
{
    if n > 0 {
        bared_length(blocks, names, n - 1);
    }
}

/// Splitting leaves a block as many exits as it had.
proof fn split_keeps_exits(blocks: Seq<BlockView>, b: int, n: int, registers: nat)
    requires
        splits_well(blocks, registers),
        0 <= n <= blocks.len(),
        0 <= b < blocks.len(),
        split_before(blocks, n).len() <= u32::MAX,
    ensures
        split_before(blocks, n)[b].term.targets().len() == blocks[b].term.targets().len(),
    decreases n,
{
    if n > 0 {
        let before = split_before(blocks, n - 1);
        let index = n - 1;
        split_grows(blocks, n - 1, n);
        split_keeps_exits(blocks, b, n - 1, registers);
        split_well(blocks, n - 1, registers);
        if before[index].term.targets().len() >= 2 {
            split_exits_grow(before, index);
            split_exit_well(before, index, 0, registers);
            split_exit_well(split_exit(before, index, 0), index, 1, registers);
        }
    }
}

// -- doing it ---------------------------------------------------------------

/// Put another target in the place of one, and answer with the one that was
/// there.
fn replace_target(term: &mut Terminator, position: usize, with: Target) -> (was: Target)
    requires
        position < old(term)@.targets().len(),
    ensures
        was@ == old(term)@.targets()[position as int],
        final(term)@ == old(term)@.with_targets(
            old(term)@.targets().update(position as int, with@),
        ),
{
    let mut moved: Target = with;
    match term {
        Terminator::Jump(target) => {
            std::mem::swap(target, &mut moved);
        },
        Terminator::Branch { then_blk, else_blk, .. } => {
            if position == 0 {
                std::mem::swap(then_blk, &mut moved);
            } else {
                std::mem::swap(else_blk, &mut moved);
            }
        },
        Terminator::Return(_) => {},
    }
    moved
}

/// Whether an exit carries anything.
fn carries(term: &Terminator, position: usize) -> (carries: bool)
    requires
        position < term@.targets().len(),
    ensures
        carries == (term@.targets()[position as int].args.len() > 0),
{
    match term {
        Terminator::Jump(target) => target.args.len() > 0,
        Terminator::Branch { then_blk, else_blk, .. } => if position == 0 {
            then_blk.args.len() > 0
        } else {
            else_blk.args.len() > 0
        },
        Terminator::Return(_) => false,
    }
}

/// Send one exit through a block of its own, where it carries anything.
fn split_one(blocks: &mut Vec<Block>, index: usize, position: usize)
    requires
        index < old(blocks)@.len(),
        position < block_views(old(blocks)@)[index as int].term.targets().len(),
        split_exit(block_views(old(blocks)@), index as int, position as int).len() <= u32::MAX,
    ensures
        block_views(final(blocks)@) == split_exit(
            block_views(old(blocks)@),
            index as int,
            position as int,
        ),
{
    let ghost views = block_views(blocks@);
    assert(views[index as int] == blocks@[index as int]@);
    if carries(&blocks[index].term, position) {
        let through = BlockId(blocks.len() as u32);
        let moved: Target = replace_target(
            &mut blocks[index].term,
            position,
            Target::to(through),
        );
        let edge = Block {
            kind: BlockKind::Edge,
            params: Vec::new(),
            index: through.0,
            instrs: Vec::new(),
            term: Terminator::Jump(moved),
        };
        proof {
            assert(instr_views(edge.instrs@) =~= seq![]);
            assert(edge@ =~= edge_block(views.len() as int, moved@));
        }
        blocks.push(edge);
        assert(block_views(blocks@) =~= split_exit(views, index as int, position as int));
    }
}

/// Give every argument-carrying edge that leaves a block by one of several
/// exits a block of its own to put the copies in.
///
/// Without it the copies would land at the end of the branching block and run
/// on the other edge too. It also keeps the copies out of a block ending in a
/// branch, where a backend fuses the comparison with the jump and an
/// instruction in between would stop it.
fn split_argument_edges(blocks: &mut Vec<Block>, Ghost(registers): Ghost<nat>)
    requires
        splits_well(block_views(old(blocks)@), registers),
        split(block_views(old(blocks)@)).len() <= u32::MAX,
    ensures
        block_views(final(blocks)@) == split(block_views(old(blocks)@)),
{
    let ghost views = block_views(blocks@);
    let count: usize = blocks.len();
    let mut index: usize = 0;
    while index < count
        invariant
            index <= count == views.len(),
            splits_well(views, registers),
            split(views).len() <= u32::MAX,
            block_views(blocks@) == split_before(views, index as int),
            blocks@.len() >= count,
        decreases count - index,
    {
        proof {
            split_grows(views, index as int, count as int);
            split_grows(views, index + 1, count as int);
            split_well(views, index as int, registers);
        }
        let ghost now = block_views(blocks@);
        assert(now[index as int] == blocks@[index as int]@);
        let exits: usize = blocks[index].term.successors().len();
        if exits >= 2 {
            proof {
                split_exits_grow(now, index as int);
                split_exit_well(now, index as int, 0, registers);
            }
            split_one(blocks, index, 0);
            split_one(blocks, index, 1);
        }
        index = index + 1;
    }
}

/// Whether a register is among the destinations of a run of moves.
fn written(parallel: &Vec<Move>, reg: VReg) -> (found: bool)
    ensures
        found == destinations(parallel@).contains(reg),
{
    let mut i: usize = 0;
    while i < parallel.len()
        invariant
            i <= parallel@.len(),
            forall|k: int| 0 <= k < i ==> destinations(parallel@)[k] != reg,
        decreases parallel@.len() - i,
    {
        assert(destinations(parallel@)[i as int] == parallel@[i as int].0);
        if parallel[i].0 == reg {
            return true;
        }
        i = i + 1;
    }
    false
}

/// Turn a parallel assignment into a sequence of copies meaning the same thing.
///
/// Every copy on one edge happens **at once**: a block whose parameters are
/// `(%a, %b)` reached with `(%b, %a)` is a swap, and writing `%a = %b` first
/// would lose `%b`'s old value and copy it back into itself. So a source that
/// is also a destination is read into a register of its own first, and only
/// then is anything written.
pub fn sequence(names: &mut Names, parallel: Vec<Move>) -> (out: Vec<Instr>)
    requires
        moves_within(parallel@, old(names)@.names.len()),
        sequenced(old(names)@, parallel@).1.names.len() <= u32::MAX,
    ensures
        (instr_views(out@), final(names)@) == sequenced(old(names)@, parallel@),
{
    let ghost start = names@;
    let mut out: Vec<Instr> = Vec::new();
    let mut writes: Vec<Move> = Vec::new();
    let mut i: usize = 0;
    assert(instr_views(out@) =~= seq![]);
    while i < parallel.len()
        invariant
            i <= parallel@.len(),
            moves_within(parallel@, start.names.len()),
            start.names.len() <= names@.names.len(),
            saved_before(start, parallel@, parallel@.len() as int).names.names.len() <= u32::MAX,
            (Sequencing { names: names@, saves: instr_views(out@), writes: writes@ })
                == saved_before(start, parallel@, i as int),
        decreases parallel@.len() - i,
    {
        let (dst, src) = parallel[i];
        let ghost before = instr_views(out@);
        let mut handed: Value = src;
        proof {
            saves_grow(start, parallel@, i + 1, parallel@.len() as int);
            assert(parallel@[i as int].0.0 < start.names.len());
        }
        if let Value::Reg(reg) = src {
            if reg != dst && written(&parallel, reg) {
                let saved: VReg = names.copy_of(reg);
                out.push(Instr::Copy { dst: saved, src: Value::Reg(reg) });
                assert(instr_views(out@) =~= before.push(InstrView::Copy { dst: saved, src }));
                handed = Value::Reg(saved);
            }
        }
        writes.push((dst, handed));
        i = i + 1;
    }
    let ghost saves = instr_views(out@);
    let ghost all = saved_before(start, parallel@, parallel@.len() as int);
    let mut k: usize = 0;
    assert(saves + written_out(writes@, 0) =~= saves);
    while k < writes.len()
        invariant
            k <= writes@.len(),
            instr_views(out@) == saves + written_out(writes@, k as int),
        decreases writes@.len() - k,
    {
        let (dst, src) = writes[k];
        let ghost before = out@;
        // A parameter handed its own definition back — a loop variable that did
        // not change on this path — is a copy of a register to itself.
        let same: bool = match src {
            Value::Reg(reg) => reg == dst,
            Value::Const(_) => false,
        };
        if !same {
            out.push(Instr::Copy { dst, src });
            assert(instr_views(out@) =~= instr_views(before).push(InstrView::Copy { dst, src }));
            assert(saves + written_out(writes@, k + 1) =~= (saves + written_out(
                writes@,
                k as int,
            )).push(InstrView::Copy { dst, src }));
        }
        k = k + 1;
    }
    out
}

/// What the end of a block has to copy.
fn waiting(blocks: &Vec<Block>, index: usize) -> (moves: Vec<Move>)
    requires
        index < blocks@.len(),
        forall|i: int|
            0 <= i < block_views(blocks@)[index as int].term.targets().len() ==> (
            #[trigger] block_views(blocks@)[index as int].term.targets()[i]).block.0
                < blocks@.len(),
    ensures
        moves@ == moves_of(block_views(blocks@), index as int),
{
    let ghost views = block_views(blocks@);
    assert(views[index as int] == blocks@[index as int]@);
    let mut moves: Vec<Move> = Vec::new();
    if let Terminator::Jump(target) = &blocks[index].term {
        assert(views[index as int].term.targets()[0] == target@);
        let params: &Vec<VReg> = &blocks[target.block.0 as usize].params;
        let args: &Vec<Value> = &target.args;
        let mut i: usize = 0;
        while i < params.len() && i < args.len()
            invariant
                i <= params@.len(),
                i <= args@.len(),
                moves@.len() == i,
                forall|k: int| 0 <= k < i ==> #[trigger] moves@[k] == (params@[k], args@[k]),
            decreases params@.len() - i,
        {
            moves.push((params[i], args[i]));
            i = i + 1;
        }
        assert(moves@ =~= paired(params@, args@));
    }
    moves
}

/// Hand nothing on.
fn bare(term: &mut Terminator)
    ensures
        final(term)@ == bare_term(old(term)@),
{
    let ghost before = term@;
    let successors: Vec<BlockId> = term.successors();
    let mut targets: Vec<Target> = Vec::new();
    let mut i: usize = 0;
    while i < successors.len()
        invariant
            i <= successors@.len(),
            successors@ == before.successors(),
            targets@.len() == i,
            forall|k: int|
                0 <= k < i ==> (#[trigger] targets@[k])@ == TargetView::plain(
                    before.targets()[k].block,
                ),
        decreases successors@.len() - i,
    {
        assert(successors@[i as int] == before.targets()[i as int].block);
        targets.push(Target::to(successors[i]));
        i = i + 1;
    }
    assert(targets@.map_values(|target: Target| target@) =~= before.targets().map_values(
        |target: TargetView| TargetView::plain(target.block),
    ));
    term.targets_mut(targets);
}

/// Replace every block parameter with copies at the end of the blocks jumping
/// to it, leaving a function whose edges hand nothing on.
pub fn destruct_function(function: &mut Function)
    requires
        destructible(old(function)@),
    ensures
        final(function)@ == destructed(old(function)@),
{
    let ghost whole = function@;
    let ghost views = split(whole.blocks);
    let ghost start = NamesView::of(whole.names);
    proof {
        bared_length(views, start, views.len() as int);
        split_well(whole.blocks, whole.blocks.len() as int, whole.names.len());
    }
    split_argument_edges(&mut function.blocks, Ghost(whole.names.len()));
    let count: usize = function.blocks.len();

    // What each block has to copy before it leaves, collected before anything is
    // emitted: it is what the parameters were that says where the copies go.
    let mut copies: Vec<Vec<Move>> = Vec::new();
    let mut index: usize = 0;
    while index < count
        invariant
            index <= count == function.blocks@.len(),
            views == block_views(function.blocks@),
            splits_well(views, whole.names.len()),
            copies@.len() == index,
            forall|b: int| 0 <= b < index ==> (#[trigger] copies@[b])@ == moves_of(views, b),
        decreases count - index,
    {
        assert(block_within(views[index as int], whole.names.len(), views.len()));
        copies.push(waiting(&function.blocks, index));
        index = index + 1;
    }
    let mut names = Names::of(function);
    let ghost empty = *function;
    let mut index: usize = 0;
    while index < count
        invariant
            index <= count == function.blocks@.len(),
            views.len() == count,
            copies@.len() == count - index,
            whole.names.len() == start.names.len(),
            splits_well(views, whole.names.len()),
            forall|b: int|
                0 <= b < copies@.len() ==> (#[trigger] copies@[b])@ == moves_of(
                    views,
                    b + index,
                ),
            bared(views, start, count as int).1.names.len() <= u32::MAX,
            function.name == empty.name,
            function.params == empty.params,
            function.ret == empty.ret,
            function.frame_bytes == empty.frame_bytes,
            names@ == bared(views, start, index as int).1,
            bared(views, start, index as int).0.len() == index,
            forall|b: int|
                0 <= b < index ==> (#[trigger] function.blocks@[b])@ == bared(
                    views,
                    start,
                    index as int,
                ).0[b],
            forall|b: int|
                index <= b < count ==> (#[trigger] function.blocks@[b])@ == views[b],
        decreases count - index,
    {
        let ghost before = function.blocks@;
        let ghost waiting = copies@;
        proof {
            bared_grows(views, start, index as int, count as int);
            bared_grows(views, start, index + 1, count as int);
            bared_length(views, start, index + 1);
            moves_are_within(views, index as int, whole.names.len(), names@.names.len());
            assert(waiting[0]@ == moves_of(views, index as int));
        }
        let parallel: Vec<Move> = copies.remove(0);
        assert forall|b: int| 0 <= b < copies@.len() implies (#[trigger] copies@[b])@ == moves_of(
            views,
            b + index + 1,
        ) by {
            assert(copies@[b] == waiting[b + 1]);
        }
        assert(before[index as int]@ == views[index as int]);
        let mut sequenced: Vec<Instr> = sequence(&mut names, parallel);
        let ghost added = sequenced@;
        function.blocks[index].params = Vec::new();
        let ghost held = function.blocks@[index as int].instrs@;
        function.blocks[index].instrs.append(&mut sequenced);
        bare(&mut function.blocks[index].term);
        proof {
            let now = function.blocks@[index as int];
            assert(instr_views(now.instrs@) =~= instr_views(held) + instr_views(added));
            assert(now@ =~= bare_block(views[index as int], instr_views(added)));
            assert forall|b: int| 0 <= b < index + 1 implies (
            #[trigger] function.blocks@[b])@ == bared(views, start, index + 1).0[b] by {
                if b < index {
                    assert(function.blocks@[b] == before[b]);
                }
            }
            assert forall|b: int| index + 1 <= b < count implies (
            #[trigger] function.blocks@[b])@ == views[b] by {
                assert(function.blocks@[b] == before[b]);
            }
        }
        index = index + 1;
    }
    function.vreg_names = names.finish();
    proof {
        assert(block_views(function.blocks@) =~= bared(views, start, count as int).0);
        assert(function@ =~= destructed(whole));
    }
}

/// What comes of each of a run of functions.
pub open spec fn all_destructed(functions: Seq<FunctionView>) -> Seq<FunctionView> {
    functions.map_values(|function: FunctionView| destructed(function))
}

/// Take every function back out of SSA form.
pub fn destruct(program: &mut Program)
    requires
        forall|i: int|
            0 <= i < old(program)@.functions.len() ==> destructible(
                #[trigger] old(program)@.functions[i],
            ),
    ensures
        final(program)@ == (ProgramView {
            functions: all_destructed(old(program)@.functions),
            ..old(program)@
        }),
{
    let ghost before = program@;
    let ghost whole = *program;
    let count: usize = program.functions.len();
    let mut i: usize = 0;
    while i < count
        invariant
            i <= count == program.functions@.len(),
            before.functions.len() == count,
            before == whole@,
            program.strings == whole.strings,
            program.texts == whole.texts,
            program.vtables == whole.vtables,
            program.table == whole.table,
            forall|k: int| 0 <= k < count ==> destructible(#[trigger] before.functions[k]),
            forall|k: int|
                0 <= k < i ==> (#[trigger] program.functions@[k])@ == destructed(
                    before.functions[k],
                ),
            forall|k: int|
                i <= k < count ==> (#[trigger] program.functions@[k])@ == before.functions[k],
        decreases count - i,
    {
        assert(program.functions@[i as int]@ == before.functions[i as int]);
        assert(destructible(before.functions[i as int]));
        destruct_function(&mut program.functions[i]);
        i = i + 1;
    }
    assert(function_views(program.functions@) =~= all_destructed(before.functions));
}

} // verus!
