//! Which virtual registers are live where, by backward dataflow over the CFG.
//!
//! Block parameters are handled the same way an instruction's result is: a
//! parameter is written at the very top of its block, and the arguments a
//! terminator hands its successors are read at the very bottom of the block it
//! leaves. That is what makes this correct in SSA form and out of it — outside
//! SSA both lists are empty.

use vstd::prelude::*;

use crate::graph::is_path;
use crate::ir::block::{flow, Block, BlockView};
use crate::ir::func::{block_within, well_formed, Function, FunctionView};
use crate::ir::instr::Instr;
use crate::ir::value::{registers, registers_contain, value_within, BlockId, VReg, Value};
pub use crate::ir::vregset::VRegSet;

verus! {

// -- what being live means --------------------------------------------------

/// Whether step `i` of a block reads a register: an instruction, or the
/// terminator behind the last of them.
pub open spec fn reads_at(block: BlockView, i: int, reg: VReg) -> bool {
    if i < block.instrs.len() {
        block.instrs[i].operands().contains(Value::Reg(reg))
    } else {
        block.term.operands().contains(Value::Reg(reg))
    }
}

/// Whether a block has written a register by the time it gets to step `i`.
pub open spec fn written_before(block: BlockView, i: int, reg: VReg) -> bool {
    ||| block.params.contains(reg)
    ||| exists|j: int| 0 <= j < i && #[trigger] block.instrs[j].written() == Some(reg)
}

/// Whether a block reads what a register held when it was entered.
pub open spec fn exposed(block: BlockView, reg: VReg) -> bool {
    exists|i: int|
        0 <= i <= block.instrs.len() && #[trigger] reads_at(block, i, reg) && !written_before(
            block,
            i,
            reg,
        )
}

/// Whether a block writes a register.
pub open spec fn writes(block: BlockView, reg: VReg) -> bool {
    written_before(block, block.instrs.len() as int, reg)
}

/// Whether a way through the blocks ends where a register is read, and nothing
/// on the way writes it first.
pub open spec fn live_along(blocks: Seq<BlockView>, path: Seq<int>, reg: VReg) -> bool {
    &&& is_path(flow(blocks), path)
    &&& exposed(blocks[path.last()], reg)
    &&& forall|i: int| 0 <= i < path.len() - 1 ==> !writes(#[trigger] blocks[path[i]], reg)
}

/// Whether what a register holds at the top of a block may still be read.
pub open spec fn live_at(blocks: Seq<BlockView>, at: int, reg: VReg) -> bool {
    exists|path: Seq<int>| #[trigger] live_along(blocks, path, reg) && path[0] == at
}

/// Whether nothing is read that was not written on every way there.
pub open spec fn reads_only_written(function: FunctionView) -> bool {
    forall|r: int|
        0 <= r < function.names.len() ==> !#[trigger] live_at(
            function.blocks,
            0,
            VReg(r as u32),
        )
}

/// Whether what a register holds at the bottom of a block may still be read.
pub open spec fn live_after(blocks: Seq<BlockView>, at: int, reg: VReg) -> bool {
    exists|to: int|
        0 <= to < blocks.len() && #[trigger] flow(blocks)[at].contains(to) && live_at(
            blocks,
            to,
            reg,
        )
}

/// What is live where it is read is live where it is entered.
pub proof fn live_where_exposed(blocks: Seq<BlockView>, at: int, reg: VReg)
    requires
        0 <= at < blocks.len(),
        exposed(blocks[at], reg),
    ensures
        live_at(blocks, at, reg),
{
    assert(live_along(blocks, seq![at], reg));
}

/// What is live at the bottom of a block that does not write it is live at its
/// top.
pub proof fn live_through(blocks: Seq<BlockView>, at: int, reg: VReg)
    requires
        0 <= at < blocks.len(),
        live_after(blocks, at, reg),
        !writes(blocks[at], reg),
    ensures
        live_at(blocks, at, reg),
{
    let to = choose|to: int|
        0 <= to < blocks.len() && #[trigger] flow(blocks)[at].contains(to) && live_at(
            blocks,
            to,
            reg,
        );
    let path = choose|path: Seq<int>| #[trigger] live_along(blocks, path, reg) && path[0] == to;
    let longer = seq![at] + path;
    assert(longer.last() == path.last());
    assert forall|i: int| 0 <= i < longer.len() implies 0 <= #[trigger] longer[i]
        < flow(blocks).len() by {
        if i > 0 {
            assert(longer[i] == path[i - 1]);
        }
    }
    assert forall|i: int| 0 <= i < longer.len() - 1 implies (#[trigger] flow(
        blocks,
    )[longer[i]]).contains(longer[i + 1]) by {
        if i > 0 {
            assert(longer[i] == path[i - 1] && longer[i + 1] == path[i - 1 + 1]);
            assert(flow(blocks)[path[i - 1]].contains(path[i - 1 + 1]));
        }
    }
    assert forall|i: int| 0 <= i < longer.len() - 1 implies !writes(
        #[trigger] blocks[longer[i]],
        reg,
    ) by {
        if i > 0 {
            assert(longer[i] == path[i - 1]);
            assert(!writes(blocks[path[i - 1]], reg));
        }
    }
    assert(live_along(blocks, longer, reg));
}

// -- working it out ---------------------------------------------------------

/// Live-in and live-out sets, one per block.
pub struct Liveness {
    pub live_in: Vec<VRegSet>,
    pub live_out: Vec<VRegSet>,
}

/// Whether a set can hold every register of a function.
pub open spec fn roomy(set: VRegSet, registers: nat) -> bool {
    set.room() == (registers + 63) / 64 * 64
}

spec fn all_roomy(sets: Seq<VRegSet>, registers: nat) -> bool {
    forall|i: int| 0 <= i < sets.len() ==> roomy(#[trigger] sets[i], registers)
}

/// How many registers all of a run of sets leave out.
spec fn missing(sets: Seq<VRegSet>) -> nat
    decreases sets.len(),
{
    if sets.len() == 0 {
        0
    } else {
        missing(sets.drop_last()) + sets.last().missing()
    }
}

proof fn missing_after(sets: Seq<VRegSet>, at: int, set: VRegSet)
    requires
        0 <= at < sets.len(),
    ensures
        missing(sets.update(at, set)) + sets[at].missing() == missing(sets) + set.missing(),
    decreases sets.len(),
{
    let new = sets.update(at, set);
    if at == sets.len() - 1 {
        assert(new.drop_last() =~= sets.drop_last());
    } else {
        missing_after(sets.drop_last(), at, set);
        assert(new.drop_last() =~= sets.drop_last().update(at, set));
    }
}

/// Whether everything in the sets is live there.
spec fn sound(blocks: Seq<BlockView>, live_in: Seq<VRegSet>, live_out: Seq<VRegSet>) -> bool {
    &&& forall|b: int, reg: VReg|
        0 <= b < blocks.len() && #[trigger] live_in[b].has(reg) ==> live_at(blocks, b, reg)
    &&& forall|b: int, reg: VReg|
        0 <= b < blocks.len() && #[trigger] live_out[b].has(reg) ==> live_after(blocks, b, reg)
}

/// Whether what a block reads, and what its successors read through it, is in
/// its sets.
spec fn settled_at(
    blocks: Seq<BlockView>,
    live_in: Seq<VRegSet>,
    live_out: Seq<VRegSet>,
    b: int,
) -> bool {
    &&& forall|to: int, reg: VReg|
        #![trigger live_in[to].has(reg), flow(blocks)[b].contains(to)]
        0 <= to < blocks.len() && flow(blocks)[b].contains(to) && live_in[to].has(reg)
            ==> live_out[b].has(reg)
    &&& forall|reg: VReg| #[trigger]
        live_out[b].has(reg) && !writes(blocks[b], reg) ==> live_in[b].has(reg)
}

/// Whether everything read before it is written is in the sets.
spec fn holds_exposed(blocks: Seq<BlockView>, live_in: Seq<VRegSet>) -> bool {
    forall|b: int, reg: VReg|
        0 <= b < blocks.len() && #[trigger] exposed(blocks[b], reg) ==> live_in[b].has(reg)
}

/// Sets that have settled hold everything that is live.
proof fn settled_is_complete(
    blocks: Seq<BlockView>,
    live_in: Seq<VRegSet>,
    live_out: Seq<VRegSet>,
    path: Seq<int>,
    reg: VReg,
)
    requires
        holds_exposed(blocks, live_in),
        forall|b: int|
            0 <= b < blocks.len() ==> #[trigger] settled_at(blocks, live_in, live_out, b),
        live_along(blocks, path, reg),
    ensures
        live_in[path[0]].has(reg),
    decreases path.len(),
{
    if path.len() > 1 {
        let rest = path.drop_first();
        assert(rest.last() == path.last());
        assert forall|i: int| 0 <= i < rest.len() implies 0 <= #[trigger] rest[i] < flow(
            blocks,
        ).len() by {
            assert(rest[i] == path[i + 1]);
        }
        assert forall|i: int| 0 <= i < rest.len() - 1 implies (#[trigger] flow(
            blocks,
        )[rest[i]]).contains(rest[i + 1]) by {
            assert(flow(blocks)[path[i + 1]].contains(path[i + 1 + 1]));
        }
        assert forall|i: int| 0 <= i < rest.len() - 1 implies !writes(
            #[trigger] blocks[rest[i]],
            reg,
        ) by {
            assert(!writes(blocks[path[i + 1]], reg));
        }
        assert(live_along(blocks, rest, reg));
        settled_is_complete(blocks, live_in, live_out, rest, reg);
        let at = path[0];
        assert(flow(blocks)[path[0]].contains(path[0int + 1]));
        assert(0 <= path[0] < flow(blocks).len());
        assert(0 <= path[1] < flow(blocks).len());
        assert(settled_at(blocks, live_in, live_out, at));
        assert(live_in[path[1]].has(reg));
        assert(live_out[at].has(reg));
        assert(!writes(blocks[path[0]], reg));
    } else {
        assert(exposed(blocks[path[0]], reg));
        assert(0 <= path[0] < flow(blocks).len());
    }
}

/// Add the registers a step reads and its block has not written yet.
fn expose(exposed_set: &mut VRegSet, written: &VRegSet, used: &Vec<VReg>)
    requires
        old(exposed_set).room() == written.room(),
        forall|k: int| 0 <= k < used@.len() ==> (#[trigger] used@[k]).0 < written.room(),
    ensures
        final(exposed_set).room() == old(exposed_set).room(),
        forall|reg: VReg| #[trigger]
            final(exposed_set).has(reg) == (old(exposed_set).has(reg) || (used@.contains(reg)
                && !written.has(reg))),
{
    let mut i: usize = 0;
    while i < used.len()
        invariant
            i <= used@.len(),
            exposed_set.room() == written.room(),
            old(exposed_set).room() == written.room(),
            forall|k: int| 0 <= k < used@.len() ==> (#[trigger] used@[k]).0 < written.room(),
            forall|reg: VReg| #[trigger]
                exposed_set.has(reg) == (old(exposed_set).has(reg) || (used@.take(i as int).contains(
                    reg,
                ) && !written.has(reg))),
        decreases used@.len() - i,
    {
        let reg: VReg = used[i];
        if !written.contains(reg) {
            exposed_set.insert(reg);
        }
        assert forall|other: VReg| #[trigger] exposed_set.has(other) == (old(exposed_set).has(other)
            || (used@.take(i + 1).contains(other) && !written.has(other))) by {
            let now = used@.take(i + 1);
            let before = used@.take(i as int);
            if now.contains(other) {
                let k = choose|k: int| 0 <= k < now.len() && now[k] == other;
                if k < i {
                    assert(before[k] == other);
                }
            }
            if before.contains(other) {
                let k = choose|k: int| 0 <= k < before.len() && before[k] == other;
                assert(now[k] == other);
            }
            assert(now[i as int] == reg);
        }
        i = i + 1;
    }
    assert(used@.take(i as int) =~= used@);
}

/// What a block reads before it writes it, and what it writes.
fn summary(block: &Block, count: usize) -> (sets: (VRegSet, VRegSet))
    requires
        count <= u32::MAX,
        block_within(block@, count as nat, u32::MAX as nat),
    ensures
        roomy(sets.0, count as nat),
        roomy(sets.1, count as nat),
        forall|reg: VReg| #[trigger] sets.0.has(reg) == exposed(block@, reg),
        forall|reg: VReg| #[trigger] sets.1.has(reg) == writes(block@, reg),
{
    let mut exposed_set = VRegSet::new(count);
    let mut written = VRegSet::new(count);
    let ghost view = block@;
    let mut i: usize = 0;
    while i < block.params.len()
        invariant
            i <= block.params@.len(),
            view == block@,
            count <= u32::MAX,
            block_within(view, count as nat, u32::MAX as nat),
            roomy(written, count as nat),
            forall|reg: VReg| #[trigger]
                written.has(reg) == block.params@.take(i as int).contains(reg),
        decreases block.params@.len() - i,
    {
        let reg: VReg = block.params[i];
        assert(view.params[i as int] == reg);
        written.insert(reg);
        assert forall|other: VReg| #[trigger] written.has(other) == block.params@.take(
            i + 1,
        ).contains(other) by {
            let now = block.params@.take(i + 1);
            let before = block.params@.take(i as int);
            if now.contains(other) {
                let k = choose|k: int| 0 <= k < now.len() && now[k] == other;
                if k < i {
                    assert(before[k] == other);
                }
            }
            if before.contains(other) {
                let k = choose|k: int| 0 <= k < before.len() && before[k] == other;
                assert(now[k] == other);
            }
            assert(now[i as int] == reg);
        }
        i = i + 1;
    }
    assert(block.params@.take(i as int) =~= block.params@);
    let mut k: usize = 0;
    while k < block.instrs.len()
        invariant
            k <= block.instrs@.len(),
            view == block@,
            count <= u32::MAX,
            block_within(view, count as nat, u32::MAX as nat),
            roomy(written, count as nat),
            roomy(exposed_set, count as nat),
            forall|reg: VReg| #[trigger] written.has(reg) == written_before(view, k as int, reg),
            forall|reg: VReg| #[trigger]
                exposed_set.has(reg) == exists|i: int|
                    0 <= i < k && #[trigger] reads_at(view, i, reg) && !written_before(
                        view,
                        i,
                        reg,
                    ),
        decreases block.instrs@.len() - k,
    {
        let instr: &Instr = &block.instrs[k];
        assert(view.instrs[k as int] == instr@);
        let used: Vec<VReg> = instr.uses();
        proof {
            used_within(instr@.operands(), count as nat);
            assert forall|reg: VReg| #[trigger] used@.contains(reg) == reads_at(
                view,
                k as int,
                reg,
            ) by {
                registers_contain(instr@.operands(), reg);
            }
        }
        let ghost before = exposed_set;
        let ghost written_so_far = written;
        expose(&mut exposed_set, &written, &used);
        assert forall|reg: VReg| #[trigger] exposed_set.has(reg) == exists|i: int|
            0 <= i < k + 1 && #[trigger] reads_at(view, i, reg) && !written_before(view, i, reg) by {
            if before.has(reg) {
                let i = choose|i: int|
                    0 <= i < k && #[trigger] reads_at(view, i, reg) && !written_before(
                        view,
                        i,
                        reg,
                    );
                assert(reads_at(view, i, reg));
            }
            if used@.contains(reg) && !written.has(reg) {
                assert(reads_at(view, k as int, reg) && !written_before(view, k as int, reg));
            }
            if exists|i: int|
                0 <= i < k + 1 && #[trigger] reads_at(view, i, reg) && !written_before(
                    view,
                    i,
                    reg,
                ) {
                let i = choose|i: int|
                    0 <= i < k + 1 && #[trigger] reads_at(view, i, reg) && !written_before(
                        view,
                        i,
                        reg,
                    );
                if i == k {
                    assert(used@.contains(reg) && !written.has(reg));
                } else {
                    assert(before.has(reg));
                }
            }
        }
        if let Some(def) = instr.def() {
            written.insert(def);
        }
        assert forall|reg: VReg| #[trigger] written.has(reg) == written_before(view, k + 1, reg) by {
            written_steps(view, k as int, reg);
        }
        k = k + 1;
    }
    let used: Vec<VReg> = block.term.uses();
    proof {
        used_within(view.term.operands(), count as nat);
        assert forall|reg: VReg| #[trigger] used@.contains(reg) == reads_at(
            view,
            k as int,
            reg,
        ) by {
            registers_contain(view.term.operands(), reg);
        }
    }
    let ghost before = exposed_set;
    expose(&mut exposed_set, &written, &used);
    assert forall|reg: VReg| #[trigger] exposed_set.has(reg) == exposed(view, reg) by {
        if before.has(reg) {
            let i = choose|i: int|
                0 <= i < k && #[trigger] reads_at(view, i, reg) && !written_before(view, i, reg);
            assert(reads_at(view, i, reg));
        }
        if used@.contains(reg) && !written.has(reg) {
            assert(reads_at(view, k as int, reg) && !written_before(view, k as int, reg));
        }
        if exposed(view, reg) {
            let i = choose|i: int|
                0 <= i <= k && #[trigger] reads_at(view, i, reg) && !written_before(view, i, reg);
            if i == k {
                assert(used@.contains(reg) && !written.has(reg));
            } else {
                assert(before.has(reg));
            }
        }
    }
    (exposed_set, written)
}

/// One step further, what that step writes has been written too.
pub proof fn written_steps(block: BlockView, i: int, reg: VReg)
    requires
        0 <= i < block.instrs.len(),
    ensures
        written_before(block, i + 1, reg) == (written_before(block, i, reg)
            || block.instrs[i].written() == Some(reg)),
{
    if block.instrs[i].written() == Some(reg) {
        assert(0 <= i < i + 1 && block.instrs[i].written() == Some(reg));
    }
}

/// The registers among operands that exist exist.
pub proof fn used_within(operands: Seq<Value>, count: nat)
    requires
        forall|i: int| 0 <= i < operands.len() ==> value_within(#[trigger] operands[i], count),
    ensures
        forall|k: int|
            0 <= k < registers(operands).len() ==> (#[trigger] registers(operands)[k]).0 < count,
    decreases operands.len(),
{
    if operands.len() > 0 {
        let rest = operands.drop_last();
        used_within(rest, count);
        assert(value_within(operands[operands.len() - 1], count));
        assert forall|k: int| 0 <= k < registers(operands).len() implies (#[trigger] registers(
            operands,
        )[k]).0 < count by {
            if k < registers(rest).len() {
                assert(registers(operands)[k] == registers(rest)[k]);
            }
        }
    }
}

/// Give one block's sets what its successors' sets hold by now. Answers whether
/// that added anything.
fn settle(
    block: &Block,
    b: usize,
    written: &Vec<VRegSet>,
    live_in: &mut Vec<VRegSet>,
    live_out: &mut Vec<VRegSet>,
    Ghost(function): Ghost<FunctionView>,
) -> (changed: bool)
    requires
        well_formed(function),
        b < function.blocks.len(),
        block@ == function.blocks[b as int],
        written@.len() == function.blocks.len(),
        old(live_in)@.len() == function.blocks.len(),
        old(live_out)@.len() == function.blocks.len(),
        all_roomy(written@, function.names.len()),
        all_roomy(old(live_in)@, function.names.len()),
        all_roomy(old(live_out)@, function.names.len()),
        forall|reg: VReg| #[trigger] written@[b as int].has(reg) == writes(block@, reg),
        sound(function.blocks, old(live_in)@, old(live_out)@),
        holds_exposed(function.blocks, old(live_in)@),
    ensures
        final(live_in)@.len() == function.blocks.len(),
        final(live_out)@.len() == function.blocks.len(),
        all_roomy(final(live_in)@, function.names.len()),
        all_roomy(final(live_out)@, function.names.len()),
        sound(function.blocks, final(live_in)@, final(live_out)@),
        holds_exposed(function.blocks, final(live_in)@),
        missing(final(live_in)@) + missing(final(live_out)@) <= missing(old(live_in)@) + missing(
            old(live_out)@,
        ),
        changed ==> missing(final(live_in)@) + missing(final(live_out)@) < missing(old(live_in)@)
            + missing(old(live_out)@),
        !changed ==> same_sets(final(live_in)@, old(live_in)@) && same_sets(
            final(live_out)@,
            old(live_out)@,
        ) && settled_at(function.blocks, final(live_in)@, final(live_out)@, b as int),
{
    let ghost blocks = function.blocks;
    let ghost count = function.names.len();
    let ghost first_in = live_in@;
    let ghost first_out = live_out@;
    let successors: Vec<BlockId> = block.term.successors();
    proof {
        assert(block_within(blocks[b as int], count, blocks.len()));
    }
    let mut changed: bool = false;
    let mut i: usize = 0;
    while i < successors.len()
        invariant
            i <= successors@.len(),
            well_formed(function),
            blocks == function.blocks,
            count == function.names.len(),
            b < blocks.len(),
            block@ == blocks[b as int],
            block_within(blocks[b as int], count, blocks.len()),
            successors@ == block@.term.successors(),
            live_in@ == first_in,
            first_in.len() == blocks.len(),
            first_out.len() == blocks.len(),
            live_out@.len() == blocks.len(),
            all_roomy(first_in, count),
            all_roomy(live_out@, count),
            sound(blocks, live_in@, live_out@),
            missing(live_out@) <= missing(first_out),
            changed ==> missing(live_out@) < missing(first_out),
            !changed ==> same_sets(live_out@, first_out),
            forall|j: int, reg: VReg|
                0 <= j < i && #[trigger] live_in@[successors@[j].0 as int].has(reg)
                    ==> live_out@[b as int].has(reg),
        decreases successors@.len() - i,
    {
        let to: usize = successors[i].0 as usize;
        assert(block@.term.targets()[i as int].block.0 == to);
        assert(to < blocks.len());
        let ghost before = live_out@;
        let mut leaving: VRegSet = VRegSet::new(0);
        assert(roomy(live_out@[b as int], count));
        assert(roomy(live_in@[to as int], count));
        std::mem::swap(&mut leaving, &mut live_out[b]);
        let grew: bool = leaving.union_with(&live_in[to]);
        std::mem::swap(&mut leaving, &mut live_out[b]);
        proof {
            assert(live_out@ =~= before.update(b as int, live_out@[b as int]));
            missing_after(before, b as int, live_out@[b as int]);
            assert forall|at: int, reg: VReg|
                0 <= at < blocks.len() && #[trigger] live_out@[at].has(reg) implies live_after(
                blocks,
                at,
                reg,
            ) by {
                if at == b && !before[at].has(reg) {
                    assert(live_in@[to as int].has(reg));
                    assert(flow(blocks)[at][i as int] == to);
                    assert(flow(blocks)[at].contains(to as int));
                } else {
                    assert(before[at].has(reg));
                }
            }
            assert forall|j: int, reg: VReg|
                0 <= j < i + 1 && #[trigger] live_in@[successors@[j].0 as int].has(
                    reg,
                ) implies live_out@[b as int].has(reg) by {
                if j < i {
                    assert(before[b as int].has(reg));
                }
            }
            if !grew {
                assert forall|at: int, reg: VReg|
                    0 <= at < before.len() implies #[trigger] live_out@[at].has(reg)
                    == before[at].has(reg) by {
                    if at == b {
                        assert(live_out@[at].has(reg) ==> before[at].has(reg));
                    }
                }
            }
        }
        if grew {
            changed = true;
        }
        i = i + 1;
    }
    let ghost middle_out = live_out@;
    let ghost changed_out = changed;
    let mut entering: VRegSet = VRegSet::new(0);
    assert(roomy(live_in@[b as int], count));
    assert(roomy(live_out@[b as int], count));
    assert(roomy(written@[b as int], count));
    std::mem::swap(&mut entering, &mut live_in[b]);
    let grew: bool = entering.union_without(&live_out[b], &written[b]);
    std::mem::swap(&mut entering, &mut live_in[b]);
    if grew {
        changed = true;
    }
    proof {
        assert(live_in@ =~= first_in.update(b as int, live_in@[b as int]));
        missing_after(first_in, b as int, live_in@[b as int]);
        assert forall|at: int, reg: VReg|
            0 <= at < blocks.len() && #[trigger] live_in@[at].has(reg) implies live_at(
            blocks,
            at,
            reg,
        ) by {
            if at == b && !first_in[at].has(reg) {
                assert(live_out@[b as int].has(reg) && !written@[b as int].has(reg));
                live_through(blocks, at, reg);
            } else {
                assert(first_in[at].has(reg));
            }
        }
        assert forall|at: int, reg: VReg|
            0 <= at < blocks.len() && #[trigger] exposed(
                blocks[at],
                reg,
            ) implies live_in@[at].has(reg) by {
            assert(first_in[at].has(reg));
        }
        if !changed {
            assert forall|at: int, reg: VReg|
                0 <= at < first_in.len() implies #[trigger] live_in@[at].has(reg)
                == first_in[at].has(reg) by {
                if at == b {
                    assert(live_in@[at].has(reg) ==> first_in[at].has(reg));
                }
            }
            assert forall|to: int, reg: VReg|
                #![trigger live_in@[to].has(reg), flow(blocks)[b as int].contains(to)]
                0 <= to < blocks.len() && flow(blocks)[b as int].contains(to)
                    && live_in@[to].has(reg) implies live_out@[b as int].has(reg) by {
                let k = choose|k: int|
                    0 <= k < flow(blocks)[b as int].len() && flow(blocks)[b as int][k] == to;
                assert(successors@[k].0 == to);
                assert(first_in[successors@[k].0 as int].has(reg));
            }
        }
    }
    changed
}

/// Whether two runs of sets hold the same.
spec fn same_sets(a: Seq<VRegSet>, b: Seq<VRegSet>) -> bool {
    &&& a.len() == b.len()
    &&& forall|i: int, reg: VReg|
        0 <= i < a.len() ==> #[trigger] a[i].has(reg) == b[i].has(reg)
}

/// One round over every block, the last first. Answers whether it added
/// anything.
fn round(
    function: &Function,
    written: &Vec<VRegSet>,
    live_in: &mut Vec<VRegSet>,
    live_out: &mut Vec<VRegSet>,
) -> (changed: bool)
    requires
        well_formed(function@),
        written@.len() == function.blocks@.len(),
        old(live_in)@.len() == function.blocks@.len(),
        old(live_out)@.len() == function.blocks@.len(),
        all_roomy(written@, function@.names.len()),
        all_roomy(old(live_in)@, function@.names.len()),
        all_roomy(old(live_out)@, function@.names.len()),
        forall|b: int, reg: VReg|
            0 <= b < written@.len() ==> #[trigger] written@[b].has(reg) == writes(
                function@.blocks[b],
                reg,
            ),
        sound(function@.blocks, old(live_in)@, old(live_out)@),
        holds_exposed(function@.blocks, old(live_in)@),
    ensures
        final(live_in)@.len() == function.blocks@.len(),
        final(live_out)@.len() == function.blocks@.len(),
        all_roomy(final(live_in)@, function@.names.len()),
        all_roomy(final(live_out)@, function@.names.len()),
        sound(function@.blocks, final(live_in)@, final(live_out)@),
        holds_exposed(function@.blocks, final(live_in)@),
        missing(final(live_in)@) + missing(final(live_out)@) <= missing(old(live_in)@) + missing(
            old(live_out)@,
        ),
        changed ==> missing(final(live_in)@) + missing(final(live_out)@) < missing(old(live_in)@)
            + missing(old(live_out)@),
        !changed ==> forall|b: int|
            0 <= b < function.blocks@.len() ==> #[trigger] settled_at(
                function@.blocks,
                final(live_in)@,
                final(live_out)@,
                b,
            ),
{
    let ghost view = function@;
    let ghost first_in = live_in@;
    let ghost first_out = live_out@;
    let mut changed: bool = false;
    // Blocks are emitted roughly in forward order, so walking backwards reaches
    // the fixpoint in few passes.
    let mut b: usize = function.blocks.len();
    while b > 0
        invariant
            b <= function.blocks@.len(),
            view == function@,
            well_formed(view),
            written@.len() == function.blocks@.len(),
            live_in@.len() == function.blocks@.len(),
            live_out@.len() == function.blocks@.len(),
            all_roomy(written@, view.names.len()),
            all_roomy(live_in@, view.names.len()),
            all_roomy(live_out@, view.names.len()),
            forall|b: int, reg: VReg|
                0 <= b < written@.len() ==> #[trigger] written@[b].has(reg) == writes(
                    view.blocks[b],
                    reg,
                ),
            sound(view.blocks, live_in@, live_out@),
            holds_exposed(view.blocks, live_in@),
            missing(live_in@) + missing(live_out@) <= missing(first_in) + missing(first_out),
            changed ==> missing(live_in@) + missing(live_out@) < missing(first_in) + missing(
                first_out,
            ),
            !changed ==> forall|at: int|
                b <= at < function.blocks@.len() ==> #[trigger] settled_at(
                    view.blocks,
                    live_in@,
                    live_out@,
                    at,
                ),
        decreases b,
    {
        b = b - 1;
        let ghost before_in = live_in@;
        let ghost before_out = live_out@;
        assert(view.blocks[b as int] == function.blocks@[b as int]@);
        let grew: bool = settle(
            &function.blocks[b],
            b,
            written,
            live_in,
            live_out,
            Ghost(view),
        );
        if grew {
            changed = true;
        }
        proof {
            if !changed {
                assert forall|at: int| b <= at < function.blocks@.len() implies #[trigger] settled_at(
                    view.blocks,
                    live_in@,
                    live_out@,
                    at,
                ) by {
                    if at > b {
                        assert(settled_at(view.blocks, before_in, before_out, at));
                        still_settled(
                            view.blocks,
                            before_in,
                            before_out,
                            live_in@,
                            live_out@,
                            at,
                        );
                    }
                }
            }
        }
    }
    changed
}

proof fn still_settled(
    blocks: Seq<BlockView>,
    in_before: Seq<VRegSet>,
    out_before: Seq<VRegSet>,
    in_now: Seq<VRegSet>,
    out_now: Seq<VRegSet>,
    at: int,
)
    requires
        0 <= at < blocks.len(),
        in_before.len() == blocks.len(),
        out_before.len() == blocks.len(),
        settled_at(blocks, in_before, out_before, at),
        same_sets(in_now, in_before),
        same_sets(out_now, out_before),
    ensures
        settled_at(blocks, in_now, out_now, at),
{
    assert forall|to: int, reg: VReg|
        #![trigger in_now[to].has(reg), flow(blocks)[at].contains(to)]
        0 <= to < blocks.len() && flow(blocks)[at].contains(to) && in_now[to].has(
            reg,
        ) implies out_now[at].has(reg) by {
        assert(in_before[to].has(reg));
        assert(out_before[at].has(reg));
    }
    assert forall|reg: VReg| #[trigger] out_now[at].has(reg) && !writes(
        blocks[at],
        reg,
    ) implies in_now[at].has(reg) by {
        assert(out_before[at].has(reg));
        assert(in_before[at].has(reg));
    }
}

/// ```text
/// live_out(B) = union of live_in(S) for every successor S of B
/// live_in(B)  = used_before_written(B) + (live_out(B) - written(B))
/// ```
pub fn liveness(function: &Function) -> (live: Liveness)
    requires
        well_formed(function@),
    ensures
        live.live_in@.len() == function.blocks@.len(),
        live.live_out@.len() == function.blocks@.len(),
        forall|b: int|
            0 <= b < function.blocks@.len() ==> roomy(
                #[trigger] live.live_in@[b],
                function@.names.len(),
            ),
        forall|b: int|
            0 <= b < function.blocks@.len() ==> roomy(
                #[trigger] live.live_out@[b],
                function@.names.len(),
            ),
        forall|b: int, reg: VReg|
            0 <= b < function.blocks@.len() ==> #[trigger] live.live_in@[b].has(reg) == live_at(
                function@.blocks,
                b,
                reg,
            ),
        forall|b: int, reg: VReg|
            0 <= b < function.blocks@.len() ==> #[trigger] live.live_out@[b].has(reg)
                == live_after(function@.blocks, b, reg),
{
    let ghost blocks = function@.blocks;
    let ghost names = function@.names.len();
    let count: usize = function.blocks.len();
    let total: usize = function.vreg_count();
    let mut live_in: Vec<VRegSet> = Vec::new();
    let mut live_out: Vec<VRegSet> = Vec::new();
    let mut written: Vec<VRegSet> = Vec::new();
    let mut b: usize = 0;
    while b < count
        invariant
            b <= count == function.blocks@.len(),
            well_formed(function@),
            blocks == function@.blocks,
            names == function@.names.len() == total,
            live_in@.len() == b,
            live_out@.len() == b,
            written@.len() == b,
            all_roomy(live_in@, names),
            all_roomy(live_out@, names),
            all_roomy(written@, names),
            forall|at: int, reg: VReg|
                0 <= at < b ==> #[trigger] live_in@[at].has(reg) == exposed(blocks[at], reg),
            forall|at: int, reg: VReg| 0 <= at < b ==> !#[trigger] live_out@[at].has(reg),
            forall|at: int, reg: VReg|
                0 <= at < b ==> #[trigger] written@[at].has(reg) == writes(blocks[at], reg),
        decreases count - b,
    {
        proof {
            assert(blocks[b as int] == function.blocks@[b as int]@);
            assert(block_within(blocks[b as int], names, blocks.len()));
        }
        let (exposed_set, writes_set) = summary(&function.blocks[b], total);
        live_in.push(exposed_set);
        live_out.push(VRegSet::new(total));
        written.push(writes_set);
        b = b + 1;
    }
    proof {
        assert forall|at: int, reg: VReg|
            0 <= at < blocks.len() && #[trigger] live_in@[at].has(reg) implies live_at(
            blocks,
            at,
            reg,
        ) by {
            live_where_exposed(blocks, at, reg);
        }
    }
    // Both sets only ever grow, so the fixpoint can accumulate in place: a round
    // that adds nothing anywhere is the last one.
    let mut changed: bool = true;
    while changed
        invariant
            count == function.blocks@.len(),
            well_formed(function@),
            blocks == function@.blocks,
            names == function@.names.len(),
            live_in@.len() == count,
            live_out@.len() == count,
            written@.len() == count,
            all_roomy(live_in@, names),
            all_roomy(live_out@, names),
            all_roomy(written@, names),
            forall|at: int, reg: VReg|
                0 <= at < written@.len() ==> #[trigger] written@[at].has(reg) == writes(
                    blocks[at],
                    reg,
                ),
            sound(blocks, live_in@, live_out@),
            holds_exposed(blocks, live_in@),
            !changed ==> forall|at: int|
                0 <= at < count ==> #[trigger] settled_at(blocks, live_in@, live_out@, at),
        decreases missing(live_in@) + missing(live_out@), changed as int,
    {
        changed = round(function, &written, &mut live_in, &mut live_out);
    }
    proof {
        assert forall|at: int, reg: VReg| 0 <= at < count implies #[trigger] live_in@[at].has(reg)
            == live_at(blocks, at, reg) by {
            if live_at(blocks, at, reg) {
                let path = choose|path: Seq<int>| #[trigger]
                    live_along(blocks, path, reg) && path[0] == at;
                settled_is_complete(blocks, live_in@, live_out@, path, reg);
            }
        }
        assert forall|at: int, reg: VReg| 0 <= at < count implies #[trigger] live_out@[at].has(reg)
            == live_after(blocks, at, reg) by {
            if live_after(blocks, at, reg) {
                let to = choose|to: int|
                    0 <= to < blocks.len() && #[trigger] flow(blocks)[at].contains(to) && live_at(
                        blocks,
                        to,
                        reg,
                    );
                assert(live_in@[to].has(reg));
                assert(settled_at(blocks, live_in@, live_out@, at));
            }
        }
    }
    Liveness { live_in, live_out }
}

} // verus!
