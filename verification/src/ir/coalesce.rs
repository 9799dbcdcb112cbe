//! Registers a copy is the only thing keeping apart.
//!
//! Leaving SSA turns every block parameter into copies at the end of the blocks
//! that jump to it, and most of those copies are between two names for one
//! variable — `%i.1 = copy %i.2` at the bottom of a loop body is the counter
//! being handed back to the header it came from. Emitted as written, each is a
//! move on every iteration, for a value that never needed moving.
//!
//! Two registers may share one if they are **never live at the same time**.
//! That is exactly what the interference below answers, and the rule that makes
//! it work for a copy is this:
//!
//! ```text
//! %a = copy %b        // %a and %b interfere only if %b is read *after* this
//! ```
//!
//! At the copy, `%a` is written and `%b` read; they hold the same value from
//! here on, so unless `%b` is wanted again later there is no moment where the
//! two have to be different registers.

use vstd::prelude::*;

use crate::ir::block::{block_views, instr_views, Block, BlockView, TermView};
use crate::ir::func::{
    block_within, hands_nothing, target_args_empty, well_formed, Function, FunctionView,
};
use crate::ir::instr::{instr_within, Instr, InstrView};
use crate::ir::liveness::{live_after, liveness, reads_at, roomy, used_within, Liveness, VRegSet};
use crate::ir::ssa::rename::operands_keep_written;
use crate::ir::value::{registers_contain, value_within, VReg, Value};

verus! {

// -- interference -----------------------------------------------------------

/// Whether what a register holds just before step `k` of a block may still be
/// read.
pub open spec fn alive_before(blocks: Seq<BlockView>, b: int, k: int, reg: VReg) -> bool
    decreases blocks[b].instrs.len() - k,
{
    let block = blocks[b];
    if k >= block.instrs.len() {
        reads_at(block, k, reg) || live_after(blocks, b, reg)
    } else {
        reads_at(block, k, reg) || (alive_before(blocks, b, k + 1, reg)
            && block.instrs[k].written() != Some(reg))
    }
}

/// Whether an instruction writes one of two registers while the other is still
/// to be read.
pub open spec fn clash_at(blocks: Seq<BlockView>, b: int, k: int, x: VReg, y: VReg) -> bool {
    &&& x != y
    &&& {
        ||| blocks[b].instrs[k].written() == Some(x) && alive_before(blocks, b, k + 1, y)
        ||| blocks[b].instrs[k].written() == Some(y) && alive_before(blocks, b, k + 1, x)
    }
}

/// Whether two registers are live at the same moment.
pub open spec fn interfere(blocks: Seq<BlockView>, x: VReg, y: VReg) -> bool {
    exists|b: int, k: int|
        0 <= b < blocks.len() && 0 <= k < blocks[b].instrs.len() && #[trigger] clash_at(
            blocks,
            b,
            k,
            x,
            y,
        )
}

// -- merging ----------------------------------------------------------------

/// The register that stands for each register.
pub type Leaders = Seq<VReg>;

/// Whether a register that one stands for interferes with one that another does.
pub open spec fn conflict(
    blocks: Seq<BlockView>,
    leaders: Leaders,
    a: VReg,
    b: VReg,
) -> bool {
    exists|x: int, y: int|
        0 <= x < leaders.len() && 0 <= y < leaders.len() && #[trigger] leaders[x] == a
            && #[trigger] leaders[y] == b && interfere(blocks, VReg(x as u32), VReg(y as u32))
}

/// With `a` standing for everything `b` stood for.
pub open spec fn joined(leaders: Leaders, a: VReg, b: VReg) -> Leaders {
    leaders.map_values(
        |leader: VReg|
            if leader == b {
                a
            } else {
                leader
            },
    )
}

/// What one instruction joins: the two ends of a copy, wherever nothing that
/// either stands for interferes.
pub open spec fn joined_by(
    blocks: Seq<BlockView>,
    leaders: Leaders,
    instr: InstrView,
) -> Leaders {
    match instr {
        InstrView::Copy { dst, src: Value::Reg(src) } => {
            let a = leaders[dst.0 as int];
            let b = leaders[src.0 as int];
            if a == b || conflict(blocks, leaders, a, b) {
                leaders
            } else {
                joined(leaders, a, b)
            }
        },
        _ => leaders,
    }
}

/// What the first `n` instructions of a block join.
pub open spec fn joined_in_block(
    blocks: Seq<BlockView>,
    leaders: Leaders,
    b: int,
    n: int,
) -> Leaders
    decreases n,
{
    if n <= 0 {
        leaders
    } else {
        joined_by(blocks, joined_in_block(blocks, leaders, b, n - 1), blocks[b].instrs[n - 1])
    }
}

/// What the first `n` blocks join.
pub open spec fn joined_in(blocks: Seq<BlockView>, leaders: Leaders, n: int) -> Leaders
    decreases n,
{
    if n <= 0 {
        leaders
    } else {
        joined_in_block(
            blocks,
            joined_in(blocks, leaders, n - 1),
            n - 1,
            blocks[n - 1].instrs.len() as int,
        )
    }
}

/// Every register standing for itself.
pub open spec fn apart(count: nat) -> Leaders {
    Seq::new(count, |r: int| VReg(r as u32))
}

/// The register that stands for each register of a function once every copy has
/// been looked at.
pub open spec fn leaders_of(function: FunctionView) -> Leaders {
    joined_in(function.blocks, apart(function.names.len()), function.blocks.len() as int)
}

/// An operand with the register that stands for it.
pub open spec fn led_value(leaders: Leaders, value: Value) -> Value {
    match value {
        Value::Reg(reg) => Value::Reg(leaders[reg.0 as int]),
        Value::Const(_) => value,
    }
}

pub open spec fn led_values(leaders: Leaders, values: Seq<Value>) -> Seq<Value> {
    values.map_values(|value: Value| led_value(leaders, value))
}

pub open spec fn led_instr(leaders: Leaders, instr: InstrView) -> InstrView {
    let with = instr.with_operands(led_values(leaders, instr.operands()));
    match instr.written() {
        Some(reg) => with.with_def(leaders[reg.0 as int]),
        None => with,
    }
}

/// Whether an instruction copies a register to itself.
pub open spec fn copies_itself(instr: InstrView) -> bool {
    instr matches InstrView::Copy { dst, src } && src == Value::Reg(dst)
}

/// The first `n` instructions of a block with the registers that stand for
/// theirs, without what is left of a copy whose two ends became one register.
pub open spec fn led_instrs(leaders: Leaders, instrs: Seq<InstrView>, n: int) -> Seq<InstrView>
    decreases n,
{
    if n <= 0 {
        seq![]
    } else {
        let rest = led_instrs(leaders, instrs, n - 1);
        let instr = led_instr(leaders, instrs[n - 1]);
        if copies_itself(instr) {
            rest
        } else {
            rest.push(instr)
        }
    }
}

pub open spec fn led_term(leaders: Leaders, term: TermView) -> TermView {
    term.with_operands(led_values(leaders, term.operands()))
}

pub open spec fn led_block(leaders: Leaders, block: BlockView) -> BlockView {
    BlockView {
        instrs: led_instrs(leaders, block.instrs, block.instrs.len() as int),
        term: led_term(leaders, block.term),
        ..block
    }
}

/// A function with the registers a copy joins made one, wherever they are never
/// both live. One that joins none is as it was.
pub open spec fn coalesced(function: FunctionView) -> FunctionView {
    let leaders = leaders_of(function);
    if leaders == apart(function.names.len()) {
        function
    } else {
        FunctionView {
            params: function.params.map_values(|reg: VReg| leaders[reg.0 as int]),
            blocks: function.blocks.map_values(|block: BlockView| led_block(leaders, block)),
            ..function
        }
    }
}

// -- what merging keeps -----------------------------------------------------

/// Whether every register that stands for one stands for itself, and no two
/// registers one stands for interfere.
pub open spec fn leads_well(blocks: Seq<BlockView>, leaders: Leaders, count: nat) -> bool {
    &&& leaders.len() == count
    &&& forall|r: int|
        0 <= r < count ==> (#[trigger] leaders[r]).0 < count && leaders[leaders[r].0 as int]
            == leaders[r]
    &&& forall|x: int, y: int|
        0 <= x < count && 0 <= y < count && #[trigger] leaders[x] == #[trigger] leaders[y]
            ==> !interfere(blocks, VReg(x as u32), VReg(y as u32))
}

/// Which of two registers comes first does not matter.
pub proof fn interference_is_mutual(blocks: Seq<BlockView>, x: VReg, y: VReg)
    requires
        interfere(blocks, x, y),
    ensures
        interfere(blocks, y, x),
        x != y,
{
    let (b, k) = choose|b: int, k: int|
        0 <= b < blocks.len() && 0 <= k < blocks[b].instrs.len() && #[trigger] clash_at(
            blocks,
            b,
            k,
            x,
            y,
        );
    assert(clash_at(blocks, b, k, y, x));
}

proof fn joined_leads_well(
    blocks: Seq<BlockView>,
    leaders: Leaders,
    count: nat,
    instr: InstrView,
)
    requires
        count <= u32::MAX,
        leads_well(blocks, leaders, count),
        instr_within(instr, count),
    ensures
        leads_well(blocks, joined_by(blocks, leaders, instr), count),
        forall|r: int|
            0 <= r < count && #[trigger] leaders[r] != VReg(r as u32) ==> joined_by(
                blocks,
                leaders,
                instr,
            )[r] != VReg(r as u32),
        joined_by(blocks, leaders, instr) == leaders || exists|r: int|
            0 <= r < count && #[trigger] joined_by(blocks, leaders, instr)[r] != VReg(r as u32),
{
    let after = joined_by(blocks, leaders, instr);
    if let InstrView::Copy { dst, src: Value::Reg(src) } = instr {
        assert(value_within(instr.operands()[0], count));
        let a = leaders[dst.0 as int];
        let b = leaders[src.0 as int];
        if !(a == b || conflict(blocks, leaders, a, b)) {
            assert(leaders[a.0 as int] == a);
            assert(leaders[b.0 as int] == b);
            assert forall|r: int| 0 <= r < count implies (#[trigger] after[r]).0 < count
                && after[after[r].0 as int] == after[r] by {
                assert(leaders[leaders[r].0 as int] == leaders[r]);
            }
            assert forall|x: int, y: int|
                0 <= x < count && 0 <= y < count && #[trigger] after[x]
                    == #[trigger] after[y] implies !interfere(
                blocks,
                VReg(x as u32),
                VReg(y as u32),
            ) by {
                if interfere(blocks, VReg(x as u32), VReg(y as u32)) {
                    interference_is_mutual(blocks, VReg(x as u32), VReg(y as u32));
                    if leaders[x] != leaders[y] {
                        if leaders[x] == b {
                            assert(leaders[y] == a && leaders[x] == b);
                        } else {
                            assert(leaders[x] == a && leaders[y] == b);
                        }
                    }
                }
            }
            assert forall|r: int|
                0 <= r < count && #[trigger] leaders[r] != VReg(r as u32) implies after[r] != VReg(
                r as u32,
            ) by {
                if leaders[r] == b && a == VReg(r as u32) {
                    assert(leaders[a.0 as int] == leaders[r]);
                }
            }
            assert(after[b.0 as int] == a);
            assert(b == VReg(b.0 as int as u32));
        }
    }
}

proof fn joined_in_block_well(
    blocks: Seq<BlockView>,
    leaders: Leaders,
    count: nat,
    b: int,
    n: int,
)
    requires
        count <= u32::MAX,
        0 <= b < blocks.len(),
        0 <= n <= blocks[b].instrs.len(),
        block_within(blocks[b], count, blocks.len()),
        leads_well(blocks, leaders, count),
    ensures
        leads_well(blocks, joined_in_block(blocks, leaders, b, n), count),
        forall|r: int|
            0 <= r < count && #[trigger] leaders[r] != VReg(r as u32) ==> joined_in_block(
                blocks,
                leaders,
                b,
                n,
            )[r] != VReg(r as u32),
    decreases n,
{
    if n > 0 {
        joined_in_block_well(blocks, leaders, count, b, n - 1);
        let before = joined_in_block(blocks, leaders, b, n - 1);
        assert(instr_within(blocks[b].instrs[n - 1], count));
        joined_leads_well(blocks, before, count, blocks[b].instrs[n - 1]);
        assert forall|r: int|
            0 <= r < count && #[trigger] leaders[r] != VReg(r as u32) implies joined_in_block(
            blocks,
            leaders,
            b,
            n,
        )[r] != VReg(r as u32) by {
            assert(before[r] != VReg(r as u32));
        }
    }
}

proof fn apart_leads_well(blocks: Seq<BlockView>, count: nat)
    requires
        count <= u32::MAX,
    ensures
        leads_well(blocks, apart(count), count),
{
    let leaders = apart(count);
    assert forall|x: int, y: int|
        0 <= x < count && 0 <= y < count && #[trigger] leaders[x]
            == #[trigger] leaders[y] implies !interfere(blocks, VReg(x as u32), VReg(y as u32)) by {
        assert(x == y);
        if interfere(blocks, VReg(x as u32), VReg(y as u32)) {
            interference_is_mutual(blocks, VReg(x as u32), VReg(y as u32));
        }
    }
}

proof fn joined_in_well(function: FunctionView, n: int)
    requires
        well_formed(function),
        0 <= n <= function.blocks.len(),
    ensures
        leads_well(
            function.blocks,
            joined_in(function.blocks, apart(function.names.len()), n),
            function.names.len(),
        ),
    decreases n,
{
    let count = function.names.len();
    apart_leads_well(function.blocks, count);
    if n > 0 {
        joined_in_well(function, n - 1);
        assert(block_within(function.blocks[n - 1], count, function.blocks.len()));
        joined_in_block_well(
            function.blocks,
            joined_in(function.blocks, apart(count), n - 1),
            count,
            n - 1,
            function.blocks[n - 1].instrs.len() as int,
        );
    }
}

/// A register is stood for by a register there is.
pub proof fn leaders_within(function: FunctionView)
    requires
        well_formed(function),
    ensures
        leaders_of(function).len() == function.names.len(),
        forall|r: int|
            0 <= r < function.names.len() ==> (#[trigger] leaders_of(function)[r]).0
                < function.names.len(),
{
    joined_in_well(function, function.blocks.len() as int);
}

/// Registers are made one only where they are **never live at the same time**.
pub proof fn coalescing_joins_only_what_is_apart(function: FunctionView, x: VReg, y: VReg)
    requires
        well_formed(function),
        x.0 < function.names.len(),
        y.0 < function.names.len(),
        leaders_of(function)[x.0 as int] == leaders_of(function)[y.0 as int],
    ensures
        !interfere(function.blocks, x, y),
{
    joined_in_well(function, function.blocks.len() as int);
    assert(x == VReg(x.0 as int as u32) && y == VReg(y.0 as int as u32));
}

proof fn led_instr_within(leaders: Leaders, instr: InstrView, count: nat)
    requires
        instr_within(instr, count),
        leaders.len() == count,
        forall|r: int| 0 <= r < count ==> (#[trigger] leaders[r]).0 < count,
    ensures
        instr_within(led_instr(leaders, instr), count),
{
    let operands = led_values(leaders, instr.operands());
    let with = instr.with_operands(operands);
    let after = led_instr(leaders, instr);
    assert(with.operands() =~= operands);
    assert(after.operands() =~= operands);
    assert forall|i: int| 0 <= i < after.operands().len() implies value_within(
        #[trigger] after.operands()[i],
        count,
    ) by {
        assert(value_within(instr.operands()[i], count));
    }
}

proof fn led_instrs_within(leaders: Leaders, instrs: Seq<InstrView>, n: int, count: nat)
    requires
        0 <= n <= instrs.len(),
        forall|k: int| 0 <= k < instrs.len() ==> instr_within(#[trigger] instrs[k], count),
        leaders.len() == count,
        forall|r: int| 0 <= r < count ==> (#[trigger] leaders[r]).0 < count,
    ensures
        forall|k: int|
            0 <= k < led_instrs(leaders, instrs, n).len() ==> instr_within(
                #[trigger] led_instrs(leaders, instrs, n)[k],
                count,
            ) && !copies_itself(led_instrs(leaders, instrs, n)[k]),
    decreases n,
{
    if n > 0 {
        led_instrs_within(leaders, instrs, n - 1, count);
        led_instr_within(leaders, instrs[n - 1], count);
        let before = led_instrs(leaders, instrs, n - 1);
        let after = led_instrs(leaders, instrs, n);
        assert forall|k: int| 0 <= k < after.len() implies instr_within(
            #[trigger] after[k],
            count,
        ) && !copies_itself(after[k]) by {
            if k < before.len() {
                assert(after[k] == before[k]);
            }
        }
    }
}

/// Coalescing leaves a function whose blocks are where they were, that names
/// only what there is, and — where it joined anything — holds no copy of a
/// register to itself.
pub proof fn coalescing_keeps_well_formed(function: FunctionView)
    requires
        well_formed(function),
        hands_nothing(function.blocks),
    ensures
        well_formed(coalesced(function)),
        hands_nothing(coalesced(function).blocks),
        coalesced(function).blocks.len() == function.blocks.len(),
        forall|b: int|
            0 <= b < function.blocks.len() ==> (#[trigger] coalesced(
                function,
            ).blocks[b]).term.successors() == function.blocks[b].term.successors(),
        leaders_of(function) != apart(function.names.len()) ==> forall|b: int, k: int|
            #![trigger coalesced(function).blocks[b].instrs[k]]
            0 <= b < function.blocks.len() && 0 <= k < coalesced(function).blocks[b].instrs.len()
                ==> !copies_itself(coalesced(function).blocks[b].instrs[k]),
{
    let leaders = leaders_of(function);
    let count = function.names.len();
    let after = coalesced(function);
    joined_in_well(function, function.blocks.len() as int);
    if leaders != apart(count) {
        assert forall|b: int| 0 <= b < after.blocks.len() implies block_within(
            #[trigger] after.blocks[b],
            count,
            after.blocks.len(),
        ) && after.blocks[b].index == b && after.blocks[b].params.len() == 0
            && target_args_empty(after.blocks[b])
            && after.blocks[b].term.successors() == function.blocks[b].term.successors()
            && forall|k: int|
            0 <= k < after.blocks[b].instrs.len() ==> !copies_itself(
                #[trigger] after.blocks[b].instrs[k],
            ) by {
            let block = function.blocks[b];
            assert(block_within(block, count, function.blocks.len()));
            assert(block.params.len() == 0);
            led_instrs_within(leaders, block.instrs, block.instrs.len() as int, count);
            let term = after.blocks[b].term;
            let operands = led_values(leaders, block.term.operands());
            assert forall|i: int| 0 <= i < block.term.targets().len() implies (
            #[trigger] term.targets()[i]) == block.term.targets()[i] by {
                assert(block.term.targets()[i].args.len() == 0);
                assert(term.targets()[i].args =~= block.term.targets()[i].args);
            }
            assert(term.targets() =~= block.term.targets());
            assert(term.operands() =~= operands);
            assert forall|i: int| 0 <= i < term.operands().len() implies value_within(
                #[trigger] term.operands()[i],
                count,
            ) by {
                assert(value_within(block.term.operands()[i], count));
            }
        }
        assert forall|i: int| 0 <= i < after.params.len() implies (#[trigger] after.params[i]).0
            < count by {
            assert(function.params[i].0 < count);
        }
    }
}

// -- doing it ---------------------------------------------------------------

/// Whether a clash has been come across once the walk stands before step `k` of
/// block `b`, coming from the end of the block.
spec fn met(blocks: Seq<BlockView>, b: int, k: int, x: VReg, y: VReg) -> bool {
    exists|at: int, i: int|
        0 <= at <= b && at < blocks.len() && 0 <= i < blocks[at].instrs.len() && (at == b ==> i
            >= k) && #[trigger] clash_at(blocks, at, i, x, y)
}

/// Note that a register clashes with every register that is alive.
fn note_clashes(graph: &mut Vec<VRegSet>, def: VReg, alive: &Vec<bool>)
    requires
        def.0 < old(graph)@.len(),
        old(graph)@.len() == alive@.len() <= u32::MAX,
        forall|r: int|
            0 <= r < alive@.len() ==> roomy(#[trigger] old(graph)@[r], alive@.len()),
    ensures
        final(graph)@.len() == alive@.len(),
        forall|r: int|
            0 <= r < alive@.len() ==> roomy(#[trigger] final(graph)@[r], alive@.len()),
        forall|x: int, y: VReg|
            0 <= x < alive@.len() && y.0 < alive@.len() ==> #[trigger] final(graph)@[x].has(y) == (
            old(graph)@[x].has(y) || (x != y.0 && ((x == def.0 && alive@[y.0 as int]) || (y == def
                && alive@[x])))),
{
    let count: usize = alive.len();
    let ghost before = graph@;
    let mut r: usize = 0;
    while r < count
        invariant
            r <= count == alive@.len() <= u32::MAX,
            def.0 < count,
            graph@.len() == count,
            before.len() == count,
            forall|k: int| 0 <= k < count ==> roomy(#[trigger] graph@[k], count as nat),
            forall|x: int, y: VReg|
                0 <= x < count && y.0 < count ==> #[trigger] graph@[x].has(y) == (before[x].has(y)
                    || (x != y.0 && ((x == def.0 && y.0 < r && alive@[y.0 as int]) || (y == def
                    && x < r && alive@[x])))),
        decreases count - r,
    {
        let ghost so_far = graph@;
        if alive[r] && r != def.0 as usize {
            assert(roomy(graph@[def.0 as int], count as nat));
            assert(roomy(graph@[r as int], count as nat));
            graph[def.0 as usize].insert(VReg(r as u32));
            assert(graph@[r as int] == so_far[r as int]);
            graph[r].insert(def);
        }
        assert forall|x: int, y: VReg|
            0 <= x < count && y.0 < count implies #[trigger] graph@[x].has(y) == (before[x].has(y)
            || (x != y.0 && ((x == def.0 && y.0 < r + 1 && alive@[y.0 as int]) || (y == def && x < r
            + 1 && alive@[x])))) by {
            assert(so_far[x].has(y) == (before[x].has(y) || (x != y.0 && ((x == def.0 && y.0 < r
                && alive@[y.0 as int]) || (y == def && x < r && alive@[x])))));
            if alive@[r as int] && r != def.0 {
                if x == def.0 {
                    assert(y == VReg(r as u32) <==> y.0 == r);
                } else if x == r {
                } else {
                    assert(graph@[x] == so_far[x]);
                }
            }
        }
        r = r + 1;
    }
}

/// Raise the flags of the registers a step reads.
fn wake(alive: &mut Vec<bool>, used: &Vec<VReg>)
    requires
        forall|k: int| 0 <= k < used@.len() ==> (#[trigger] used@[k]).0 < old(alive)@.len(),
        old(alive)@.len() <= u32::MAX,
    ensures
        final(alive)@.len() == old(alive)@.len(),
        forall|r: int|
            0 <= r < old(alive)@.len() ==> #[trigger] final(alive)@[r] == (old(alive)@[r]
                || used@.contains(VReg(r as u32))),
{
    let ghost before = alive@;
    let mut i: usize = 0;
    while i < used.len()
        invariant
            i <= used@.len(),
            alive@.len() == before.len() <= u32::MAX,
            forall|k: int| 0 <= k < used@.len() ==> (#[trigger] used@[k]).0 < before.len(),
            forall|r: int|
                0 <= r < before.len() ==> #[trigger] alive@[r] == (before[r] || exists|k: int|
                    0 <= k < i && #[trigger] used@[k] == VReg(r as u32)),
        decreases used@.len() - i,
    {
        let ghost so_far = alive@;
        let reg: VReg = used[i];
        alive.set(reg.0 as usize, true);
        assert forall|r: int| 0 <= r < before.len() implies #[trigger] alive@[r] == (before[r]
            || exists|k: int| 0 <= k < i + 1 && #[trigger] used@[k] == VReg(r as u32)) by {
            if so_far[r] && !before[r] {
                let k = choose|k: int| 0 <= k < i && #[trigger] used@[k] == VReg(r as u32);
                assert(used@[k] == VReg(r as u32));
            }
            if r == reg.0 {
                assert(used@[i as int] == VReg(r as u32));
            }
        }
        i = i + 1;
    }
    assert forall|r: int| 0 <= r < before.len() implies #[trigger] alive@[r] == (before[r]
        || used@.contains(VReg(r as u32))) by {
        if used@.contains(VReg(r as u32)) {
            let k = choose|k: int| 0 <= k < used@.len() && used@[k] == VReg(r as u32);
            assert(used@[k] == VReg(r as u32));
        }
    }
}

/// The registers alive at the end of a block, each flagged.
fn alive_at_end(
    block: &Block,
    leaving: &VRegSet,
    count: usize,
    Ghost(blocks): Ghost<Seq<BlockView>>,
    Ghost(b): Ghost<int>,
) -> (alive: Vec<bool>)
    requires
        0 <= b < blocks.len(),
        block@ == blocks[b],
        count <= u32::MAX,
        block_within(blocks[b], count as nat, blocks.len()),
        roomy(*leaving, count as nat),
        forall|reg: VReg| #[trigger] leaving.has(reg) == live_after(blocks, b, reg),
    ensures
        alive@.len() == count,
        forall|r: int|
            0 <= r < count ==> #[trigger] alive@[r] == alive_before(
                blocks,
                b,
                blocks[b].instrs.len() as int,
                VReg(r as u32),
            ),
{
    let mut alive: Vec<bool> = Vec::new();
    let mut r: usize = 0;
    while r < count
        invariant
            r <= count <= u32::MAX,
            roomy(*leaving, count as nat),
            alive@.len() == r,
            forall|k: int| 0 <= k < r ==> #[trigger] alive@[k] == leaving.has(VReg(k as u32)),
        decreases count - r,
    {
        alive.push(leaving.contains(VReg(r as u32)));
        r = r + 1;
    }
    let used: Vec<VReg> = block.term.uses();
    proof {
        used_within(blocks[b].term.operands(), count as nat);
    }
    wake(&mut alive, &used);
    assert forall|r: int| 0 <= r < count implies #[trigger] alive@[r] == alive_before(
        blocks,
        b,
        blocks[b].instrs.len() as int,
        VReg(r as u32),
    ) by {
        registers_contain(blocks[b].term.operands(), VReg(r as u32));
    }
    alive
}

/// Which registers are live at the same moment as which.
///
/// Walked backwards through each block from what leaves it, because that is the
/// direction liveness runs: a register is live where it is read and stays live
/// back to where it was written. Everything live at the point a register is
/// **written** is something it cannot share a machine register with.
fn interference(function: &Function) -> (graph: Vec<VRegSet>)
    requires
        well_formed(function@),
    ensures
        graph@.len() == function@.names.len(),
        forall|r: int|
            0 <= r < graph@.len() ==> roomy(#[trigger] graph@[r], function@.names.len()),
        forall|x: int, y: VReg|
            0 <= x < graph@.len() && y.0 < graph@.len() ==> #[trigger] graph@[x].has(y)
                == interfere(function@.blocks, VReg(x as u32), y),
{
    let ghost blocks = function@.blocks;
    let live: Liveness = liveness(function);
    let count: usize = function.vreg_count();
    let mut graph: Vec<VRegSet> = Vec::new();
    let mut r: usize = 0;
    while r < count
        invariant
            r <= count,
            graph@.len() == r,
            forall|k: int| 0 <= k < r ==> roomy(#[trigger] graph@[k], count as nat),
            forall|x: int, y: VReg| 0 <= x < r ==> !#[trigger] graph@[x].has(y),
        decreases count - r,
    {
        graph.push(VRegSet::new(count));
        r = r + 1;
    }
    let mut b: usize = 0;
    while b < function.blocks.len()
        invariant
            b <= function.blocks@.len(),
            well_formed(function@),
            blocks == function@.blocks,
            count == function@.names.len() <= u32::MAX,
            live.live_out@.len() == blocks.len(),
            forall|b: int|
                0 <= b < blocks.len() ==> roomy(#[trigger] live.live_out@[b], count as nat),
            forall|b: int, reg: VReg|
                0 <= b < blocks.len() ==> #[trigger] live.live_out@[b].has(reg) == live_after(
                    blocks,
                    b,
                    reg,
                ),
            graph@.len() == count,
            forall|k: int| 0 <= k < count ==> roomy(#[trigger] graph@[k], count as nat),
            forall|x: int, y: VReg|
                0 <= x < count && y.0 < count ==> #[trigger] graph@[x].has(y) == met(
                    blocks,
                    b - 1,
                    0,
                    VReg(x as u32),
                    y,
                ),
        decreases function.blocks@.len() - b,
    {
        let block: &Block = &function.blocks[b];
        assert(blocks[b as int] == block@);
        assert(block_within(blocks[b as int], count as nat, blocks.len()));
        let mut alive: Vec<bool> = alive_at_end(
            block,
            &live.live_out[b],
            count,
            Ghost(blocks),
            Ghost(b as int),
        );
        let mut k: usize = block.instrs.len();
        assert forall|x: int, y: VReg|
            0 <= x < count && y.0 < count implies #[trigger] graph@[x].has(y) == met(
            blocks,
            b as int,
            k as int,
            VReg(x as u32),
            y,
        ) by {
            let reg = VReg(x as u32);
            if met(blocks, b - 1, 0, reg, y) {
                let (at, i) = choose|at: int, i: int|
                    0 <= at <= b - 1 && at < blocks.len() && 0 <= i < blocks[at].instrs.len() && (at
                        == b - 1 ==> i >= 0) && #[trigger] clash_at(blocks, at, i, reg, y);
                assert(clash_at(blocks, at, i, reg, y));
            }
            if met(blocks, b as int, k as int, reg, y) {
                let (at, i) = choose|at: int, i: int|
                    0 <= at <= b && at < blocks.len() && 0 <= i < blocks[at].instrs.len() && (at
                        == b ==> i >= k) && #[trigger] clash_at(blocks, at, i, reg, y);
                assert(clash_at(blocks, at, i, reg, y));
            }
        }
        while k > 0
            invariant
                k <= block.instrs@.len(),
                b < blocks.len(),
                blocks[b as int] == block@,
                block_within(blocks[b as int], count as nat, blocks.len()),
                count <= u32::MAX,
                graph@.len() == count,
                forall|k: int| 0 <= k < count ==> roomy(#[trigger] graph@[k], count as nat),
                alive@.len() == count,
                forall|r: int|
                    0 <= r < count ==> #[trigger] alive@[r] == alive_before(
                        blocks,
                        b as int,
                        k as int,
                        VReg(r as u32),
                    ),
                forall|x: int, y: VReg|
                    0 <= x < count && y.0 < count ==> #[trigger] graph@[x].has(y) == met(
                        blocks,
                        b as int,
                        k as int,
                        VReg(x as u32),
                        y,
                    ),
            decreases k,
        {
            k = k - 1;
            let instr: &Instr = &block.instrs[k];
            assert(blocks[b as int].instrs[k as int] == instr@);
            assert(instr_within(instr@, count as nat));
            let ghost before = graph@;
            let ghost after_it = alive@;
            let defined: Option<VReg> = instr.def();
            if let Some(def) = defined {
                note_clashes(&mut graph, def, &alive);
                alive.set(def.0 as usize, false);
            }
            assert forall|x: int, y: VReg|
                0 <= x < count && y.0 < count implies #[trigger] graph@[x].has(y) == met(
                blocks,
                b as int,
                k as int,
                VReg(x as u32),
                y,
            ) by {
                let reg = VReg(x as u32);
                assert(y == VReg(y.0 as int as u32));
                assert(before[x].has(y) == met(blocks, b as int, k + 1, reg, y));
                assert(after_it[x] == alive_before(blocks, b as int, k + 1, reg));
                assert(after_it[y.0 as int] == alive_before(blocks, b as int, k + 1, y));
                met_steps(blocks, b as int, k as int, reg, y);
            }
            // The operands are read here, so they are live from here backwards.
            // A copy's source is woken *after* its destination was put to rest,
            // which is what leaves the two free to share a register when the
            // source is not wanted again.
            let used: Vec<VReg> = instr.uses();
            proof {
                used_within(instr@.operands(), count as nat);
            }
            wake(&mut alive, &used);
            assert forall|r: int| 0 <= r < count implies #[trigger] alive@[r] == alive_before(
                blocks,
                b as int,
                k as int,
                VReg(r as u32),
            ) by {
                registers_contain(instr@.operands(), VReg(r as u32));
                assert(after_it[r] == alive_before(blocks, b as int, k + 1, VReg(r as u32)));
            }
        }
        b = b + 1;
    }
    assert forall|x: int, y: VReg|
        0 <= x < graph@.len() && y.0 < graph@.len() implies #[trigger] graph@[x].has(y)
        == interfere(blocks, VReg(x as u32), y) by {
        let reg = VReg(x as u32);
        if interfere(blocks, reg, y) {
            let (at, i) = choose|at: int, i: int|
                0 <= at < blocks.len() && 0 <= i < blocks[at].instrs.len() && #[trigger] clash_at(
                    blocks,
                    at,
                    i,
                    reg,
                    y,
                );
            assert(clash_at(blocks, at, i, reg, y));
            assert(met(blocks, b - 1, 0, reg, y));
        }
    }
    graph
}

proof fn met_steps(blocks: Seq<BlockView>, b: int, k: int, x: VReg, y: VReg)
    requires
        0 <= b < blocks.len(),
        0 <= k < blocks[b].instrs.len(),
    ensures
        met(blocks, b, k, x, y) == (met(blocks, b, k + 1, x, y) || clash_at(blocks, b, k, x, y)),
{
    if met(blocks, b, k, x, y) {
        let (at, i) = choose|at: int, i: int|
            0 <= at <= b && at < blocks.len() && 0 <= i < blocks[at].instrs.len() && (at == b ==> i
                >= k) && #[trigger] clash_at(blocks, at, i, x, y);
        if !(at == b && i == k) {
            assert(clash_at(blocks, at, i, x, y));
        }
    }
    if met(blocks, b, k + 1, x, y) {
        let (at, i) = choose|at: int, i: int|
            0 <= at <= b && at < blocks.len() && 0 <= i < blocks[at].instrs.len() && (at == b ==> i
                >= k + 1) && #[trigger] clash_at(blocks, at, i, x, y);
        assert(clash_at(blocks, at, i, x, y));
    }
}

/// Whether the sets of two registers that stand for some say whether those
/// interfere.
spec fn tracks(neighbours: Seq<VRegSet>, blocks: Seq<BlockView>, leaders: Leaders) -> bool {
    &&& neighbours.len() == leaders.len()
    &&& forall|r: int|
        0 <= r < leaders.len() ==> roomy(#[trigger] neighbours[r], leaders.len())
    &&& forall|a: VReg, c: VReg|
        a.0 < leaders.len() && c.0 < leaders.len() && leaders[a.0 as int] == a
            && leaders[c.0 as int] == c ==> #[trigger] neighbours[a.0 as int].has(c) == conflict(
            blocks,
            leaders,
            a,
            c,
        )
}

proof fn conflict_is_mutual(blocks: Seq<BlockView>, leaders: Leaders, a: VReg, b: VReg)
    requires
        conflict(blocks, leaders, a, b),
    ensures
        conflict(blocks, leaders, b, a),
{
    let (x, y) = choose|x: int, y: int|
        0 <= x < leaders.len() && 0 <= y < leaders.len() && #[trigger] leaders[x] == a
            && #[trigger] leaders[y] == b && interfere(blocks, VReg(x as u32), VReg(y as u32));
    interference_is_mutual(blocks, VReg(x as u32), VReg(y as u32));
    assert(leaders[y] == b && leaders[x] == a);
}

/// What the registers that stand for others conflict with once two are joined.
proof fn conflict_joined(
    blocks: Seq<BlockView>,
    leaders: Leaders,
    a: VReg,
    b: VReg,
    x: VReg,
    y: VReg,
)
    requires
        a != b,
        x != b,
        y != b,
        !conflict(blocks, leaders, a, b),
        !conflict(blocks, leaders, a, a),
        !conflict(blocks, leaders, b, b),
    ensures
        conflict(blocks, joined(leaders, a, b), x, y) == if x == a && y == a {
            false
        } else if x == a {
            conflict(blocks, leaders, a, y) || conflict(blocks, leaders, b, y)
        } else if y == a {
            conflict(blocks, leaders, x, a) || conflict(blocks, leaders, x, b)
        } else {
            conflict(blocks, leaders, x, y)
        },
{
    let after = joined(leaders, a, b);
    if conflict(blocks, after, x, y) {
        let (p, q) = choose|p: int, q: int|
            0 <= p < after.len() && 0 <= q < after.len() && #[trigger] after[p] == x
                && #[trigger] after[q] == y && interfere(
                blocks,
                VReg(p as u32),
                VReg(q as u32),
            );
        let was_p = leaders[p];
        let was_q = leaders[q];
        assert(leaders[p] == was_p && leaders[q] == was_q);
        assert(conflict(blocks, leaders, was_p, was_q));
        if was_p == b && was_q == a {
            conflict_is_mutual(blocks, leaders, b, a);
        }
    }
    if x == a && y != a && (conflict(blocks, leaders, a, y) || conflict(blocks, leaders, b, y)) {
        let from = if conflict(blocks, leaders, a, y) {
            a
        } else {
            b
        };
        let (p, q) = choose|p: int, q: int|
            0 <= p < leaders.len() && 0 <= q < leaders.len() && #[trigger] leaders[p] == from
                && #[trigger] leaders[q] == y && interfere(
                blocks,
                VReg(p as u32),
                VReg(q as u32),
            );
        assert(after[p] == x && after[q] == y);
    }
    if y == a && x != a && (conflict(blocks, leaders, x, a) || conflict(blocks, leaders, x, b)) {
        let from = if conflict(blocks, leaders, x, a) {
            a
        } else {
            b
        };
        let (p, q) = choose|p: int, q: int|
            0 <= p < leaders.len() && 0 <= q < leaders.len() && #[trigger] leaders[p] == x
                && #[trigger] leaders[q] == from && interfere(
                blocks,
                VReg(p as u32),
                VReg(q as u32),
            );
        assert(after[p] == x && after[q] == y);
    }
    if x != a && y != a && conflict(blocks, leaders, x, y) {
        let (p, q) = choose|p: int, q: int|
            0 <= p < leaders.len() && 0 <= q < leaders.len() && #[trigger] leaders[p] == x
                && #[trigger] leaders[q] == y && interfere(
                blocks,
                VReg(p as u32),
                VReg(q as u32),
            );
        assert(after[p] == x && after[q] == y);
    }
}

/// What one register stands for does not interfere with itself.
proof fn no_inner_conflict(blocks: Seq<BlockView>, leaders: Leaders, count: nat, a: VReg)
    requires
        leads_well(blocks, leaders, count),
    ensures
        !conflict(blocks, leaders, a, a),
{
    if conflict(blocks, leaders, a, a) {
        let (x, y) = choose|x: int, y: int|
            0 <= x < leaders.len() && 0 <= y < leaders.len() && #[trigger] leaders[x] == a
                && #[trigger] leaders[y] == a && interfere(
                blocks,
                VReg(x as u32),
                VReg(y as u32),
            );
        assert(leaders[x] == leaders[y]);
    }
}

/// Let `a` stand for everything `b` stood for, and inherit everything `b` could
/// not share with — otherwise a later merge would be judged on a stale answer.
fn join(
    leaders: &mut Vec<VReg>,
    neighbours: &mut Vec<VRegSet>,
    a: VReg,
    b: VReg,
    Ghost(blocks): Ghost<Seq<BlockView>>,
)
    requires
        old(leaders)@.len() <= u32::MAX,
        leads_well(blocks, old(leaders)@, old(leaders)@.len()),
        tracks(old(neighbours)@, blocks, old(leaders)@),
        a.0 < old(leaders)@.len(),
        b.0 < old(leaders)@.len(),
        old(leaders)@[a.0 as int] == a,
        old(leaders)@[b.0 as int] == b,
        a != b,
        !conflict(blocks, old(leaders)@, a, b),
    ensures
        final(leaders)@ == joined(old(leaders)@, a, b),
        tracks(final(neighbours)@, blocks, final(leaders)@),
{
    let ghost first = leaders@;
    let ghost sets = neighbours@;
    let count: usize = leaders.len();
    let mut r: usize = 0;
    while r < count
        invariant
            r <= count == first.len() <= u32::MAX,
            a.0 < count,
            b.0 < count,
            a != b,
            leaders@.len() == count,
            neighbours@.len() == count,
            sets.len() == count,
            forall|k: int| 0 <= k < count ==> roomy(#[trigger] neighbours@[k], count as nat),
            forall|k: int| 0 <= k < r ==> #[trigger] leaders@[k] == joined(first, a, b)[k],
            forall|k: int| r <= k < count ==> #[trigger] leaders@[k] == first[k],
            neighbours@[b.0 as int].has(a) == sets[b.0 as int].has(a),
            !sets[b.0 as int].has(b),
            neighbours@[b.0 as int] == sets[b.0 as int],
            forall|k: int, c: VReg|
                0 <= k < count ==> #[trigger] neighbours@[k].has(c) == (sets[k].has(c) || (k < r
                    && c == a && sets[b.0 as int].has(VReg(k as u32)))),
        decreases count - r,
    {
        let ghost before = neighbours@;
        let reg = VReg(r as u32);
        assert(roomy(neighbours@[b.0 as int], count as nat));
        assert(roomy(neighbours@[r as int], count as nat));
        if neighbours[b.0 as usize].contains(reg) {
            assert(b == VReg(b.0 as int as u32));
            assert(r != b.0);
            neighbours[r].insert(a);
        }
        if leaders[r] == b {
            leaders.set(r, a);
        }
        assert forall|k: int, c: VReg|
            0 <= k < count implies #[trigger] neighbours@[k].has(c) == (sets[k].has(c) || (k < r + 1
            && c == a && sets[b.0 as int].has(VReg(k as u32)))) by {
            assert(before[k].has(c) == (sets[k].has(c) || (k < r && c == a && sets[b.0 as int].has(
                VReg(k as u32),
            ))));
            if k != r {
                assert(neighbours@[k] == before[k]);
            }
        }
        r = r + 1;
    }
    assert(leaders@ =~= joined(first, a, b));
    let ghost spread = neighbours@;
    let mut taken: VRegSet = VRegSet::new(0);
    assert(roomy(neighbours@[a.0 as int], count as nat));
    assert(roomy(neighbours@[b.0 as int], count as nat));
    std::mem::swap(&mut taken, &mut neighbours[a.0 as usize]);
    let _grew: bool = taken.union_with(&neighbours[b.0 as usize]);
    std::mem::swap(&mut taken, &mut neighbours[a.0 as usize]);
    proof {
        no_inner_conflict(blocks, first, count as nat, a);
        no_inner_conflict(blocks, first, count as nat, b);
        let now = leaders@;
        assert forall|x: VReg, y: VReg|
            x.0 < count && y.0 < count && now[x.0 as int] == x && now[y.0 as int]
                == y implies #[trigger] neighbours@[x.0 as int].has(y) == conflict(
            blocks,
            now,
            x,
            y,
        ) by {
            assert(x != b && y != b);
            conflict_joined(blocks, first, a, b, x, y);
            assert(x == VReg(x.0 as int as u32));
            assert(spread[x.0 as int].has(y) == (sets[x.0 as int].has(y) || (y == a
                && sets[b.0 as int].has(x))));
            assert(sets[x.0 as int].has(y) == conflict(blocks, first, x, y));
            assert(sets[b.0 as int].has(x) == conflict(blocks, first, b, x));
            assert(sets[b.0 as int].has(y) == conflict(blocks, first, b, y));
            assert(spread[b.0 as int].has(y) == sets[b.0 as int].has(y));
            if conflict(blocks, first, b, x) {
                conflict_is_mutual(blocks, first, b, x);
            }
            if conflict(blocks, first, x, b) {
                conflict_is_mutual(blocks, first, x, b);
            }
            if x.0 != a.0 {
                assert(neighbours@[x.0 as int] == spread[x.0 as int]);
            }
        }
    }
}

/// Look at one instruction: join the two ends of a copy, wherever nothing that
/// either stands for interferes. Answers whether it did.
fn look_at(
    instr: &Instr,
    leaders: &mut Vec<VReg>,
    neighbours: &mut Vec<VRegSet>,
    Ghost(blocks): Ghost<Seq<BlockView>>,
) -> (changed: bool)
    requires
        old(leaders)@.len() <= u32::MAX,
        leads_well(blocks, old(leaders)@, old(leaders)@.len()),
        tracks(old(neighbours)@, blocks, old(leaders)@),
        instr_within(instr@, old(leaders)@.len()),
    ensures
        final(leaders)@ == joined_by(blocks, old(leaders)@, instr@),
        final(leaders)@.len() == old(leaders)@.len(),
        tracks(final(neighbours)@, blocks, final(leaders)@),
        leads_well(blocks, final(leaders)@, final(leaders)@.len()),
        changed ==> final(leaders)@ != apart(final(leaders)@.len()),
        !changed ==> final(leaders)@ == old(leaders)@,
{
    let ghost first = leaders@;
    let ghost count = leaders@.len();
    proof {
        joined_leads_well(blocks, first, count, instr@);
    }
    if let Instr::Copy { dst, src: Value::Reg(src) } = instr {
        assert(value_within(instr@.operands()[0], count));
        let a: VReg = leaders[dst.0 as usize];
        let b: VReg = leaders[src.0 as usize];
        assert(first[dst.0 as int] == a && first[src.0 as int] == b);
        assert(first[a.0 as int] == a && first[b.0 as int] == b);
        assert(roomy(neighbours@[a.0 as int], count));
        assert(neighbours@[a.0 as int].has(b) == conflict(blocks, first, a, b));
        if a == b || neighbours[a.0 as usize].contains(b) {
            return false;
        }
        join(leaders, neighbours, a, b, Ghost(blocks));
        proof {
            assert(leaders@[b.0 as int] == a);
            assert(apart(count)[b.0 as int] == b);
        }
        return true;
    }
    false
}

/// The register that stands for each, once every copy has been looked at, and
/// whether any two were joined.
fn joined_registers(function: &Function) -> (answer: (Vec<VReg>, bool))
    requires
        well_formed(function@),
    ensures
        answer.0@ == leaders_of(function@),
        answer.1 == (leaders_of(function@) != apart(function@.names.len())),
        leads_well(function@.blocks, answer.0@, function@.names.len()),
{
    let ghost blocks = function@.blocks;
    let ghost names = function@.names.len();
    let mut neighbours: Vec<VRegSet> = interference(function);
    let count: usize = function.vreg_count();
    let mut leaders: Vec<VReg> = Vec::new();
    let mut r: usize = 0;
    while r < count
        invariant
            r <= count <= u32::MAX,
            leaders@.len() == r,
            forall|k: int| 0 <= k < r ==> #[trigger] leaders@[k] == VReg(k as u32),
        decreases count - r,
    {
        leaders.push(VReg(r as u32));
        r = r + 1;
    }
    let mut changed: bool = false;
    proof {
        assert(leaders@ =~= apart(names));
        apart_leads_well(blocks, names);
        assert forall|a: VReg, c: VReg|
            a.0 < count && c.0 < count implies #[trigger] neighbours@[a.0 as int].has(c)
            == conflict(blocks, leaders@, a, c) by {
            assert(neighbours@[a.0 as int].has(c) == interfere(
                blocks,
                VReg(a.0 as int as u32),
                c,
            ));
            if interfere(blocks, a, c) {
                assert(leaders@[a.0 as int] == a && leaders@[c.0 as int] == c);
                assert(c == VReg(c.0 as int as u32));
            }
            if conflict(blocks, leaders@, a, c) {
                let (x, y) = choose|x: int, y: int|
                    0 <= x < leaders@.len() && 0 <= y < leaders@.len() && #[trigger] leaders@[x]
                        == a && #[trigger] leaders@[y] == c && interfere(
                        blocks,
                        VReg(x as u32),
                        VReg(y as u32),
                    );
            }
        }
    }
    let mut b: usize = 0;
    while b < function.blocks.len()
        invariant
            b <= function.blocks@.len(),
            well_formed(function@),
            blocks == function@.blocks,
            names == function@.names.len() <= u32::MAX,
            leaders@ == joined_in(blocks, apart(names), b as int),
            leaders@.len() == names,
            leads_well(blocks, leaders@, names),
            tracks(neighbours@, blocks, leaders@),
            changed == (leaders@ != apart(names)),
        decreases function.blocks@.len() - b,
    {
        let block: &Block = &function.blocks[b];
        assert(blocks[b as int] == block@);
        assert(block_within(blocks[b as int], names, blocks.len()));
        let ghost entered = leaders@;
        let mut k: usize = 0;
        while k < block.instrs.len()
            invariant
                k <= block.instrs@.len(),
                b < blocks.len(),
                blocks[b as int] == block@,
                block_within(blocks[b as int], names, blocks.len()),
                names <= u32::MAX,
                leaders@ == joined_in_block(blocks, entered, b as int, k as int),
                leaders@.len() == names,
                leads_well(blocks, leaders@, names),
                tracks(neighbours@, blocks, leaders@),
                changed == (leaders@ != apart(names)),
            decreases block.instrs@.len() - k,
        {
            let ghost before = leaders@;
            assert(blocks[b as int].instrs[k as int] == block.instrs@[k as int]@);
            assert(instr_within(blocks[b as int].instrs[k as int], names));
            if look_at(&block.instrs[k], &mut leaders, &mut neighbours, Ghost(blocks)) {
                changed = true;
            }
            k = k + 1;
        }
        b = b + 1;
    }
    (leaders, changed)
}

/// Replace every operand with the register that stands for it.
fn led(values: &Vec<Value>, leaders: &Vec<VReg>) -> (renamed: Vec<Value>)
    requires
        forall|i: int|
            0 <= i < values@.len() ==> value_within(#[trigger] values@[i], leaders@.len()),
    ensures
        renamed@ == led_values(leaders@, values@),
{
    let mut renamed: Vec<Value> = Vec::new();
    let mut i: usize = 0;
    while i < values.len()
        invariant
            i <= values@.len(),
            forall|i: int|
                0 <= i < values@.len() ==> value_within(#[trigger] values@[i], leaders@.len()),
            renamed@.len() == i,
            forall|k: int|
                0 <= k < i ==> #[trigger] renamed@[k] == led_value(leaders@, values@[k]),
        decreases values@.len() - i,
    {
        assert(value_within(values@[i as int], leaders@.len()));
        let value: Value = match values[i] {
            Value::Reg(reg) => Value::Reg(leaders[reg.0 as usize]),
            Value::Const(n) => Value::Const(n),
        };
        renamed.push(value);
        i = i + 1;
    }
    assert(renamed@ =~= led_values(leaders@, values@));
    renamed
}

/// Rename a block's registers, and drop what is left of its copies.
fn lead_block(block: &mut Block, leaders: &Vec<VReg>, Ghost(blocks): Ghost<nat>)
    requires
        block_within(old(block)@, leaders@.len(), blocks),
    ensures
        final(block)@ == led_block(leaders@, old(block)@),
{
    let ghost view = block@;
    let mut instrs: Vec<Instr> = Vec::new();
    std::mem::swap(&mut instrs, &mut block.instrs);
    let ghost views = instr_views(instrs@);
    let count: usize = instrs.len();
    let mut kept: Vec<Instr> = Vec::new();
    let mut k: usize = 0;
    assert(instr_views(kept@) =~= seq![]);
    while k < count
        invariant
            k <= count == views.len(),
            instrs@.len() == count - k,
            forall|i: int| 0 <= i < instrs@.len() ==> (#[trigger] instrs@[i])@ == views[i + k],
            forall|i: int|
                0 <= i < views.len() ==> instr_within(#[trigger] views[i], leaders@.len()),
            instr_views(kept@) == led_instrs(leaders@, views, k as int),
        decreases count - k,
    {
        let ghost remaining = instrs@;
        assert(remaining[0]@ == views[k as int]);
        let mut instr: Instr = instrs.remove(0);
        assert forall|i: int| 0 <= i < instrs@.len() implies (#[trigger] instrs@[i])@ == views[i + k
            + 1] by {
            assert(instrs@[i] == remaining[i + 1]);
        }
        assert(instr_within(views[k as int], leaders@.len()));
        let values: Vec<Value> = instr.values();
        let defined: Option<VReg> = instr.def();
        let renamed: Vec<Value> = led(&values, leaders);
        proof {
            operands_keep_written(views[k as int], renamed@);
        }
        instr.values_mut(renamed);
        if let Some(reg) = defined {
            instr.set_def(leaders[reg.0 as usize]);
        }
        assert(instr@ == led_instr(leaders@, views[k as int]));
        let same: bool = match &instr {
            Instr::Copy { dst, src: Value::Reg(src) } => *dst == *src,
            _ => false,
        };
        assert(same == copies_itself(instr@));
        if !same {
            let ghost before = instr_views(kept@);
            let ghost added = instr@;
            kept.push(instr);
            assert(instr_views(kept@) =~= before.push(added));
        }
        k = k + 1;
    }
    block.instrs = kept;
    let values: Vec<Value> = block.term.values();
    let renamed: Vec<Value> = led(&values, leaders);
    block.term.values_mut(renamed);
    assert(block@ =~= led_block(leaders@, view));
}

/// Give the registers a copy joins one register between them, wherever they are
/// never both live. Answers whether anything changed.
pub fn copies(function: &mut Function) -> (changed: bool)
    requires
        well_formed(old(function)@),
    ensures
        final(function)@ == coalesced(old(function)@),
        changed == (leaders_of(old(function)@) != apart(old(function)@.names.len())),
{
    let ghost whole = function@;
    let (leaders, changed) = joined_registers(function);
    if !changed {
        return false;
    }
    let ghost names = whole.names.len();
    let ghost start = *function;
    let count: usize = function.blocks.len();
    let mut b: usize = 0;
    while b < count
        invariant
            b <= count == function.blocks@.len(),
            whole.blocks.len() == count,
            well_formed(whole),
            names == whole.names.len() == leaders@.len(),
            function.name == start.name,
            function.params == start.params,
            function.ret == start.ret,
            function.frame_bytes == start.frame_bytes,
            function.vreg_names == start.vreg_names,
            forall|k: int|
                0 <= k < b ==> (#[trigger] function.blocks@[k])@ == led_block(
                    leaders@,
                    whole.blocks[k],
                ),
            forall|k: int|
                b <= k < count ==> (#[trigger] function.blocks@[k])@ == whole.blocks[k],
        decreases count - b,
    {
        assert(function.blocks@[b as int]@ == whole.blocks[b as int]);
        assert(block_within(whole.blocks[b as int], names, whole.blocks.len()));
        lead_block(&mut function.blocks[b], &leaders, Ghost(whole.blocks.len()));
        b = b + 1;
    }
    let mut params: Vec<VReg> = Vec::new();
    let mut i: usize = 0;
    while i < function.params.len()
        invariant
            i <= function.params@.len(),
            well_formed(whole),
            function.params@ == whole.params,
            names == whole.names.len() == leaders@.len(),
            params@.len() == i,
            forall|k: int|
                0 <= k < i ==> #[trigger] params@[k] == leaders@[whole.params[k].0 as int],
        decreases function.params@.len() - i,
    {
        assert(whole.params[i as int].0 < names);
        params.push(leaders[function.params[i].0 as usize]);
        i = i + 1;
    }
    function.params = params;
    proof {
        assert(params@ =~= whole.params.map_values(|reg: VReg| leaders@[reg.0 as int]));
        assert(block_views(function.blocks@) =~= whole.blocks.map_values(
            |block: BlockView| led_block(leaders@, block),
        ));
        assert(function@ =~= coalesced(whole));
    }
    true
}

} // verus!
