//! What nothing reads.

use vstd::prelude::*;

use crate::ir::block::{instr_views, Block, BlockView};
use crate::ir::func::{block_within, well_formed, Function, FunctionView};
use crate::ir::instr::{instr_within, Instr, InstrView};
use crate::ir::liveness::{reads_at, used_within};
use crate::ir::ssa::form::arities_agree;
use crate::ir::value::{registers_contain, VReg};

verus! {

/// Whether anything in a function reads a register.
pub open spec fn is_read(blocks: Seq<BlockView>, reg: VReg) -> bool {
    exists|b: int, i: int|
        0 <= b < blocks.len() && 0 <= i <= blocks[b].instrs.len() && #[trigger] reads_at(
            blocks[b],
            i,
            reg,
        )
}

/// Whether an instruction stays: something reads what it writes, or it writes
/// nothing, or it can fail, or it calls, or it says where an argument arrives.
pub open spec fn stays(blocks: Seq<BlockView>, instr: InstrView) -> bool {
    ||| instr.written() is None
    ||| is_read(blocks, instr.written()->0)
    ||| instr.may_fail()
    ||| instr.calls()
    ||| instr is Param
}

/// Those of the first `n` instructions that stay.
pub open spec fn staying(blocks: Seq<BlockView>, instrs: Seq<InstrView>, n: int) -> Seq<InstrView>
    decreases n,
{
    if n <= 0 {
        seq![]
    } else {
        let rest = staying(blocks, instrs, n - 1);
        if stays(blocks, instrs[n - 1]) {
            rest.push(instrs[n - 1])
        } else {
            rest
        }
    }
}

pub open spec fn block_without_dead(blocks: Seq<BlockView>, block: BlockView) -> BlockView {
    BlockView { instrs: staying(blocks, block.instrs, block.instrs.len() as int), ..block }
}

/// A function without the instructions whose answer nothing reads.
pub open spec fn without_dead(function: FunctionView) -> FunctionView {
    FunctionView {
        blocks: function.blocks.map_values(
            |block: BlockView| block_without_dead(function.blocks, block),
        ),
        ..function
    }
}

/// How many instructions there are.
pub open spec fn instructions(blocks: Seq<BlockView>) -> nat
    decreases blocks.len(),
{
    if blocks.len() == 0 {
        0
    } else {
        instructions(blocks.drop_last()) + blocks.last().instrs.len()
    }
}

proof fn staying_lowers(blocks: Seq<BlockView>, instrs: Seq<InstrView>, n: int)
    requires
        0 <= n <= instrs.len(),
    ensures
        staying(blocks, instrs, n).len() <= n,
        staying(blocks, instrs, n).len() == n ==> staying(blocks, instrs, n) == instrs.take(n),
    decreases n,
{
    if n > 0 {
        staying_lowers(blocks, instrs, n - 1);
        if staying(blocks, instrs, n).len() == n {
            assert(instrs.take(n) =~= instrs.take(n - 1).push(instrs[n - 1]));
        }
    } else {
        assert(instrs.take(0) =~= seq![]);
    }
}

proof fn blocks_lower(blocks: Seq<BlockView>, some: Seq<BlockView>)
    ensures
        ({
            let after = some.map_values(|block: BlockView| block_without_dead(blocks, block));
            &&& instructions(after) <= instructions(some)
            &&& after != some ==> instructions(after) < instructions(some)
        }),
    decreases some.len(),
{
    let after = some.map_values(|block: BlockView| block_without_dead(blocks, block));
    if some.len() > 0 {
        let rest = some.drop_last();
        let last = some.last();
        blocks_lower(blocks, rest);
        let rest_after = rest.map_values(|block: BlockView| block_without_dead(blocks, block));
        assert(after.drop_last() =~= rest_after);
        staying_lowers(blocks, last.instrs, last.instrs.len() as int);
        assert(last.instrs.take(last.instrs.len() as int) =~= last.instrs);
        if rest_after == rest && after.last().instrs.len() == last.instrs.len() {
            assert(after.last() =~= last);
            assert(after =~= rest_after.push(after.last()));
            assert(some =~= rest.push(last));
        }
    } else {
        assert(after =~= some);
    }
}

/// Each round that removes anything leaves fewer instructions.
pub proof fn elimination_runs_out(function: FunctionView)
    ensures
        instructions(without_dead(function).blocks) <= instructions(function.blocks),
        without_dead(function).blocks != function.blocks ==> instructions(
            without_dead(function).blocks,
        ) < instructions(function.blocks),
{
    blocks_lower(function.blocks, function.blocks);
}

/// What stays was there, in a place of its own.
pub proof fn staying_was_there(blocks: Seq<BlockView>, instrs: Seq<InstrView>, n: int)
    requires
        0 <= n <= instrs.len(),
    ensures
        forall|k: int|
            0 <= k < staying(blocks, instrs, n).len() ==> instrs.take(n).contains(
                #[trigger] staying(blocks, instrs, n)[k],
            ),
    decreases n,
{
    if n > 0 {
        staying_was_there(blocks, instrs, n - 1);
        let before = staying(blocks, instrs, n - 1);
        let after = staying(blocks, instrs, n);
        assert forall|k: int| 0 <= k < after.len() implies instrs.take(n).contains(
            #[trigger] after[k],
        ) by {
            if k < before.len() {
                assert(after[k] == before[k]);
                let fewer = instrs.take(n - 1);
                let j = choose|j: int| 0 <= j < fewer.len() && fewer[j] == before[k];
                assert(instrs.take(n)[j] == after[k]);
            } else {
                assert(instrs.take(n)[n - 1] == after[k]);
            }
        }
    }
}

/// Removing what nothing reads leaves every block ending as it did, and
/// everything named a thing there is.
pub proof fn elimination_keeps_well_formed(function: FunctionView)
    requires
        well_formed(function),
    ensures
        well_formed(without_dead(function)),
        arities_agree(function.blocks) ==> arities_agree(without_dead(function).blocks),
{
    let after = without_dead(function);
    assert forall|b: int| 0 <= b < after.blocks.len() implies block_within(
        #[trigger] after.blocks[b],
        after.names.len(),
        after.blocks.len(),
    ) && after.blocks[b].index == b by {
        let block = function.blocks[b];
        assert(block_within(block, function.names.len(), function.blocks.len()));
        assert(block.index == b);
        staying_was_there(function.blocks, block.instrs, block.instrs.len() as int);
        assert forall|k: int| 0 <= k < after.blocks[b].instrs.len() implies instr_within(
            #[trigger] after.blocks[b].instrs[k],
            after.names.len(),
        ) by {
            let all = block.instrs.take(block.instrs.len() as int);
            assert(all =~= block.instrs);
            let j = choose|j: int| 0 <= j < all.len() && all[j] == after.blocks[b].instrs[k];
            assert(instr_within(block.instrs[j], function.names.len()));
        }
    }
    if arities_agree(function.blocks) {
        assert forall|b: int, i: int|
            #![trigger after.blocks[b].term.targets()[i]]
            0 <= b < after.blocks.len() && 0 <= i
                < after.blocks[b].term.targets().len() implies after.blocks[b].term.targets()[i].args.len()
            == after.blocks[after.blocks[b].term.targets()[i].block.0 as int].params.len() by {
            let block = function.blocks[b];
            assert(block_within(block, function.names.len(), function.blocks.len()));
            assert(block.term.targets()[i].block.0 < function.blocks.len());
            assert(function.blocks[b].term.targets()[i].args.len()
                == function.blocks[block.term.targets()[i].block.0 as int].params.len());
        }
    }
}

/// **Dead code that can fail is not dead**, and neither is a call, nor what says
/// where an argument arrives: those stay whether or not anything reads what they
/// write. What is removed is read by nothing.
pub proof fn nothing_that_matters_is_removed(blocks: Seq<BlockView>, instr: InstrView)
    ensures
        instr.may_fail() || instr.calls() || instr is Param ==> stays(blocks, instr),
        !stays(blocks, instr) ==> instr.written() is Some && !is_read(blocks, instr.written()->0),
{
}

// -- doing it ---------------------------------------------------------------

/// Raise the flags of the registers a step reads.
fn mark(read: &mut Vec<bool>, used: &Vec<VReg>)
    requires
        forall|k: int| 0 <= k < used@.len() ==> (#[trigger] used@[k]).0 < old(read)@.len(),
        old(read)@.len() <= u32::MAX,
    ensures
        final(read)@.len() == old(read)@.len(),
        forall|r: int|
            0 <= r < old(read)@.len() ==> #[trigger] final(read)@[r] == (old(read)@[r]
                || used@.contains(VReg(r as u32))),
{
    let ghost before = read@;
    let mut i: usize = 0;
    while i < used.len()
        invariant
            i <= used@.len(),
            read@.len() == before.len() <= u32::MAX,
            forall|k: int| 0 <= k < used@.len() ==> (#[trigger] used@[k]).0 < before.len(),
            forall|r: int|
                0 <= r < before.len() ==> #[trigger] read@[r] == (before[r] || exists|k: int|
                    0 <= k < i && #[trigger] used@[k] == VReg(r as u32)),
        decreases used@.len() - i,
    {
        let ghost so_far = read@;
        let reg: VReg = used[i];
        read.set(reg.0 as usize, true);
        assert forall|r: int| 0 <= r < before.len() implies #[trigger] read@[r] == (before[r]
            || exists|k: int| 0 <= k < i + 1 && #[trigger] used@[k] == VReg(r as u32)) by {
            if so_far[r] && !before[r] {
                let k = choose|k: int| 0 <= k < i && #[trigger] used@[k] == VReg(r as u32);
                assert(used@[k] == VReg(r as u32));
            }
            if r == reg.0 {
                assert(used@[i as int] == VReg(r as u32));
            }
        }
        i = i + 1;
    }
    assert forall|r: int| 0 <= r < before.len() implies #[trigger] read@[r] == (before[r]
        || used@.contains(VReg(r as u32))) by {
        if used@.contains(VReg(r as u32)) {
            let k = choose|k: int| 0 <= k < used@.len() && used@[k] == VReg(r as u32);
            assert(used@[k] == VReg(r as u32));
        }
    }
}

/// Whether one of the first `n` steps of a block reads a register.
spec fn read_before(block: BlockView, n: int, reg: VReg) -> bool {
    exists|i: int| 0 <= i < n && #[trigger] reads_at(block, i, reg)
}

/// Whether one of the first `n` blocks reads a register.
spec fn read_in(blocks: Seq<BlockView>, n: int, reg: VReg) -> bool {
    exists|b: int|
        0 <= b < n && read_before(#[trigger] blocks[b], blocks[b].instrs.len() as int + 1, reg)
}

/// Raise the flags of the registers a block reads.
fn mark_block(read: &mut Vec<bool>, block: &Block, Ghost(blocks): Ghost<nat>)
    requires
        old(read)@.len() <= u32::MAX,
        block_within(block@, old(read)@.len(), blocks),
    ensures
        final(read)@.len() == old(read)@.len(),
        forall|r: int|
            0 <= r < old(read)@.len() ==> #[trigger] final(read)@[r] == (old(read)@[r]
                || read_before(block@, block@.instrs.len() as int + 1, VReg(r as u32))),
{
    let ghost start = read@;
    let ghost view = block@;
    let mut k: usize = 0;
    while k < block.instrs.len()
        invariant
            k <= block.instrs@.len(),
            view == block@,
            start.len() <= u32::MAX,
            read@.len() == start.len(),
            block_within(view, start.len(), blocks),
            forall|r: int|
                0 <= r < start.len() ==> #[trigger] read@[r] == (start[r] || read_before(
                    view,
                    k as int,
                    VReg(r as u32),
                )),
        decreases block.instrs@.len() - k,
    {
        let ghost before = read@;
        assert(view.instrs[k as int] == block.instrs@[k as int]@);
        assert(instr_within(view.instrs[k as int], start.len()));
        let used: Vec<VReg> = block.instrs[k].uses();
        proof {
            used_within(view.instrs[k as int].operands(), start.len());
        }
        mark(read, &used);
        assert forall|r: int| 0 <= r < start.len() implies #[trigger] read@[r] == (start[r]
            || read_before(view, k + 1, VReg(r as u32))) by {
            registers_contain(view.instrs[k as int].operands(), VReg(r as u32));
            assert(before[r] == (start[r] || read_before(view, k as int, VReg(r as u32))));
            read_steps(view, k as int, VReg(r as u32));
        }
        k = k + 1;
    }
    let ghost before = read@;
    let used: Vec<VReg> = block.term.uses();
    proof {
        used_within(view.term.operands(), start.len());
    }
    mark(read, &used);
    assert forall|r: int| 0 <= r < start.len() implies #[trigger] read@[r] == (start[r]
        || read_before(view, view.instrs.len() as int + 1, VReg(r as u32))) by {
        registers_contain(view.term.operands(), VReg(r as u32));
        assert(before[r] == (start[r] || read_before(view, k as int, VReg(r as u32))));
        read_steps(view, k as int, VReg(r as u32));
    }
}

proof fn read_steps(block: BlockView, n: int, reg: VReg)
    requires
        n >= 0,
    ensures
        read_before(block, n + 1, reg) == (read_before(block, n, reg) || reads_at(block, n, reg)),
{
    if read_before(block, n + 1, reg) {
        let i = choose|i: int| 0 <= i < n + 1 && #[trigger] reads_at(block, i, reg);
        if i < n {
            assert(reads_at(block, i, reg));
        }
    }
    if read_before(block, n, reg) {
        let i = choose|i: int| 0 <= i < n && #[trigger] reads_at(block, i, reg);
        assert(reads_at(block, i, reg));
    }
}

/// Which registers anything reads, each flagged.
fn registers_read(function: &Function) -> (read: Vec<bool>)
    requires
        well_formed(function@),
    ensures
        read@.len() == function@.names.len(),
        forall|r: int|
            0 <= r < read@.len() ==> #[trigger] read@[r] == is_read(
                function@.blocks,
                VReg(r as u32),
            ),
{
    let ghost blocks = function@.blocks;
    let count: usize = function.vreg_count();
    let mut read: Vec<bool> = Vec::new();
    let mut r: usize = 0;
    while r < count
        invariant
            r <= count,
            read@.len() == r,
            forall|k: int| 0 <= k < r ==> !read@[k],
        decreases count - r,
    {
        read.push(false);
        r = r + 1;
    }
    let mut b: usize = 0;
    while b < function.blocks.len()
        invariant
            b <= function.blocks@.len(),
            well_formed(function@),
            blocks == function@.blocks,
            count == function@.names.len(),
            read@.len() == count,
            forall|r: int|
                0 <= r < count ==> #[trigger] read@[r] == read_in(blocks, b as int, VReg(r as u32)),
        decreases function.blocks@.len() - b,
    {
        let ghost before = read@;
        assert(blocks[b as int] == function.blocks@[b as int]@);
        assert(block_within(blocks[b as int], count as nat, blocks.len()));
        mark_block(&mut read, &function.blocks[b], Ghost(blocks.len()));
        assert forall|r: int| 0 <= r < count implies #[trigger] read@[r] == read_in(
            blocks,
            b + 1,
            VReg(r as u32),
        ) by {
            let reg = VReg(r as u32);
            assert(before[r] == read_in(blocks, b as int, reg));
            if read_in(blocks, b as int, reg) {
                let at = choose|at: int|
                    0 <= at < b && read_before(
                        #[trigger] blocks[at],
                        blocks[at].instrs.len() as int + 1,
                        reg,
                    );
                assert(read_before(blocks[at], blocks[at].instrs.len() as int + 1, reg));
            }
            if read_before(blocks[b as int], blocks[b as int].instrs.len() as int + 1, reg) {
                assert(read_in(blocks, b + 1, reg));
            }
            if read_in(blocks, b + 1, reg) {
                let at = choose|at: int|
                    0 <= at < b + 1 && read_before(
                        #[trigger] blocks[at],
                        blocks[at].instrs.len() as int + 1,
                        reg,
                    );
                if at < b {
                    assert(read_in(blocks, b as int, reg));
                }
            }
        }
        b = b + 1;
    }
    assert forall|r: int| 0 <= r < read@.len() implies #[trigger] read@[r] == is_read(
        blocks,
        VReg(r as u32),
    ) by {
        let reg = VReg(r as u32);
        if is_read(blocks, reg) {
            let (at, i) = choose|at: int, i: int|
                0 <= at < blocks.len() && 0 <= i <= blocks[at].instrs.len() && #[trigger] reads_at(
                    blocks[at],
                    i,
                    reg,
                );
            assert(reads_at(blocks[at], i, reg));
            assert(read_before(blocks[at], blocks[at].instrs.len() as int + 1, reg));
        }
        if read_in(blocks, b as int, reg) {
            let at = choose|at: int|
                0 <= at < b && read_before(
                    #[trigger] blocks[at],
                    blocks[at].instrs.len() as int + 1,
                    reg,
                );
            let i = choose|i: int|
                0 <= i < blocks[at].instrs.len() as int + 1 && #[trigger] reads_at(blocks[at], i, reg);
            assert(reads_at(blocks[at], i, reg));
        }
    }
    read
}

/// Keep what stays of a block. Answers whether anything went.
fn sweep(block: &mut Block, read: &Vec<bool>, Ghost(blocks): Ghost<Seq<BlockView>>) -> (removed: bool)
    requires
        block_within(old(block)@, read@.len(), blocks.len()),
        forall|r: int| 0 <= r < read@.len() ==> #[trigger] read@[r] == is_read(blocks, VReg(r as u32)),
    ensures
        final(block)@ == block_without_dead(blocks, old(block)@),
        removed == (final(block)@ != old(block)@),
{
    let ghost view = block@;
    let mut instrs: Vec<Instr> = Vec::new();
    std::mem::swap(&mut instrs, &mut block.instrs);
    let ghost views = instr_views(instrs@);
    let count: usize = instrs.len();
    let mut kept: Vec<Instr> = Vec::new();
    let mut k: usize = 0;
    assert(instr_views(kept@) =~= seq![]);
    while k < count
        invariant
            k <= count == views.len(),
            instrs@.len() == count - k,
            forall|i: int| 0 <= i < instrs@.len() ==> (#[trigger] instrs@[i])@ == views[i + k],
            forall|i: int| 0 <= i < views.len() ==> instr_within(#[trigger] views[i], read@.len()),
            forall|r: int|
                0 <= r < read@.len() ==> #[trigger] read@[r] == is_read(blocks, VReg(r as u32)),
            instr_views(kept@) == staying(blocks, views, k as int),
        decreases count - k,
    {
        let ghost remaining = instrs@;
        assert(remaining[0]@ == views[k as int]);
        let instr: Instr = instrs.remove(0);
        assert forall|i: int| 0 <= i < instrs@.len() implies (#[trigger] instrs@[i])@ == views[i + k
            + 1] by {
            assert(instrs@[i] == remaining[i + 1]);
        }
        assert(instr_within(views[k as int], read@.len()));
        let dead: bool = match instr.def() {
            Some(dst) => {
                assert(dst == VReg(dst.0 as int as u32));
                !read[dst.0 as usize]
            },
            None => false,
        };
        let arrives: bool = match &instr {
            Instr::Param { .. } => true,
            _ => false,
        };
        let keep: bool = !dead || instr.can_fail() || instr.is_call() || arrives;
        assert(keep == stays(blocks, views[k as int]));
        if keep {
            let ghost before = instr_views(kept@);
            kept.push(instr);
            assert(instr_views(kept@) =~= before.push(views[k as int]));
        }
        k = k + 1;
    }
    proof {
        staying_lowers(blocks, views, count as int);
        assert(views.take(count as int) =~= views);
    }
    let removed: bool = kept.len() != count;
    block.instrs = kept;
    proof {
        assert(block@ =~= block_without_dead(blocks, view));
        if !removed {
            assert(block@ =~= view);
        }
    }
    removed
}

/// Remove every instruction whose answer nothing reads. Answers whether
/// anything changed.
///
/// Two things are deliberately kept.
///
/// * **Anything that can fail.** An unread `%t = mul %a, %b` still decides
///   whether the program gets past it, so removing it would move where the
///   program stops. This is the whole reason [`Instr::can_fail`] exists.
/// * **[`Instr::Param`].** The argument arrived whether or not the function
///   reads it, and that instruction is what says where — [`Function::params`]
///   names the register it defines, so dropping it would leave a parameter
///   named by nothing.
///
/// "Read" here means *anywhere in the function*, not "read after this point".
pub fn eliminate_dead(function: &mut Function) -> (removed: bool)
    requires
        well_formed(old(function)@),
    ensures
        final(function)@ == without_dead(old(function)@),
        removed == (without_dead(old(function)@).blocks != old(function)@.blocks),
        well_formed(final(function)@),
        arities_agree(old(function)@.blocks) ==> arities_agree(final(function)@.blocks),
{
    let ghost whole = function@;
    let ghost blocks = whole.blocks;
    proof {
        elimination_keeps_well_formed(whole);
    }
    let read: Vec<bool> = registers_read(function);
    let ghost start = *function;
    let count: usize = function.blocks.len();
    let mut removed: bool = false;
    let mut b: usize = 0;
    while b < count
        invariant
            b <= count == function.blocks@.len(),
            blocks == whole.blocks,
            blocks.len() == count,
            well_formed(whole),
            read@.len() == whole.names.len(),
            forall|r: int|
                0 <= r < read@.len() ==> #[trigger] read@[r] == is_read(blocks, VReg(r as u32)),
            function.name == start.name,
            function.params == start.params,
            function.ret == start.ret,
            function.frame_bytes == start.frame_bytes,
            function.vreg_names == start.vreg_names,
            forall|k: int|
                0 <= k < b ==> (#[trigger] function.blocks@[k])@ == block_without_dead(
                    blocks,
                    blocks[k],
                ),
            forall|k: int| b <= k < count ==> (#[trigger] function.blocks@[k])@ == blocks[k],
            removed == exists|k: int| 0 <= k < b && (#[trigger] function.blocks@[k])@ != blocks[k],
        decreases count - b,
    {
        let ghost before = function.blocks@;
        let ghost so_far = removed;
        assert(before[b as int]@ == blocks[b as int]);
        assert(block_within(blocks[b as int], whole.names.len(), blocks.len()));
        if sweep(&mut function.blocks[b], &read, Ghost(blocks)) {
            removed = true;
        }
        proof {
            assert forall|k: int| 0 <= k < b + 1 implies (#[trigger] function.blocks@[k])@
                == block_without_dead(blocks, blocks[k]) by {
                if k < b {
                    assert(function.blocks@[k] == before[k]);
                }
            }
            assert forall|k: int| b + 1 <= k < count implies (#[trigger] function.blocks@[k])@
                == blocks[k] by {
                assert(function.blocks@[k] == before[k]);
            }
            if so_far {
                let k = choose|k: int| 0 <= k < b && (#[trigger] before[k])@ != blocks[k];
                assert(function.blocks@[k]@ != blocks[k]);
            }
            if exists|k: int| 0 <= k < b + 1 && (#[trigger] function.blocks@[k])@ != blocks[k] {
                let k = choose|k: int|
                    0 <= k < b + 1 && (#[trigger] function.blocks@[k])@ != blocks[k];
                if k < b {
                    assert(before[k]@ != blocks[k]);
                }
            }
        }
        b = b + 1;
    }
    proof {
        assert(function@ =~= without_dead(whole));
        if removed {
            let k = choose|k: int| 0 <= k < count && (#[trigger] function.blocks@[k])@ != blocks[k];
            assert(function@.blocks[k] != blocks[k]);
        } else {
            assert(function@.blocks =~= blocks);
        }
    }
    removed
}

} // verus!
