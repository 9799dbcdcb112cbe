//! Once is enough: what the passes leave, they leave again.
//!
//! Each pass runs until it changes nothing. What is left to show is that dropping
//! what nothing reads leaves nothing new to propagate: what is known of a register
//! that is read does not depend on one that is not.

use vstd::prelude::*;

use super::dead::{
    elimination_keeps_well_formed, elimination_runs_out, instructions, is_read, staying, stays,
    without_dead,
};
use super::facts::{
    analysed, comes_from, entry_of, evaluated, gathered, known_after, known_of, round_before,
    rounds, rounds_settle, rounds_stay, transferred, Analysis, Facts,
};
use super::meaning::{rewriting_knows_the_same, rewritten_at};
use super::optimise::{all_optimised, fully_propagated, fully_without_dead, optimised};
use super::rewrite::{
    folded_operands, known_replaced, propagated, propagation_changes, propagation_runs_out,
    replacing_keeps_well_formed, rewritten_block, rewritten_instr, rewritten_term, weight,
};
use crate::graph::{raised_before, raised_before_grows};
use crate::ir::block::{
    flow, pruned, pruned_length, pruned_position, reached, reached_flags, renumbered,
    renumbered_target, BlockView, TermView,
};
use crate::ir::func::{block_within, pruning_keeps_well_formed, well_formed, FunctionView};
use crate::ir::instr::{instr_within, InstrView};
use crate::ir::liveness::reads_at;
use crate::ir::ssa::dom::predecessors_are;
use crate::ir::value::{value_within, BlockId, VReg, Value};

verus! {

// -- propagating where there is nothing to propagate ------------------------

proof fn all_raised(flags: Seq<bool>, n: int, at: int)
    requires
        0 <= at <= n <= flags.len(),
        raised_before(flags, n) == n,
    ensures
        raised_before(flags, at) == at,
        at < n ==> flags[at],
    decreases n - at,
{
    raised_before_grows(flags, 0, at);
    if at < n {
        all_raised(flags, n, at + 1);
        raised_count(flags, at);
    }
}

proof fn raised_count(flags: Seq<bool>, n: int)
    requires
        0 <= n <= flags.len(),
    ensures
        raised_before(flags, n) <= n,
    decreases n,
{
    if n > 0 {
        raised_count(flags, n - 1);
    }
}

/// Where propagating changes nothing, it changes nothing.
proof fn nothing_propagated(function: FunctionView)
    requires
        well_formed(function),
        !propagation_changes(function),
    ensures
        propagated(function) == function,
{
    let blocks = function.blocks;
    let n = blocks.len() as int;
    let flags = reached_flags(blocks);
    let kept = pruned(blocks);
    pruned_length(blocks, n);
    assert forall|at: int| 0 <= at < n implies #[trigger] kept[at] == blocks[at] by {
        all_raised(flags, n, at);
        assert(flags[at]);
        assert(reached(blocks, at));
        pruned_position(blocks, n, at);
        assert(block_within(blocks[at], function.names.len(), blocks.len()));
        let targets = blocks[at].term.targets();
        assert forall|i: int| 0 <= i < targets.len() implies #[trigger] renumbered_target(
            targets[i],
            flags,
        ) == targets[i] by {
            assert(targets[i].block.0 < blocks.len());
            all_raised(flags, n, targets[i].block.0 as int);
        }
        assert(targets.map_values(|target| renumbered_target(target, flags)) =~= targets);
        assert(renumbered(blocks, at) == blocks[at]);
    }
    assert(kept =~= blocks);
}

// -- what is known of what is read ------------------------------------------

/// Whether two say the same of every register a function reads.
spec fn same_of_read(blocks: Seq<BlockView>, a: Facts, b: Facts, count: nat) -> bool {
    &&& a.len() == count
    &&& b.len() == count
    &&& forall|r: int|
        0 <= r < count && #[trigger] is_read(blocks, VReg(r as u32)) ==> a[r] == b[r]
}

/// What is read of an instruction is known the same.
proof fn operands_known_the_same(
    function: FunctionView,
    b: int,
    k: int,
    values: Seq<Value>,
    one: Facts,
    other: Facts,
)
    requires
        well_formed(function),
        0 <= b < function.blocks.len(),
        0 <= k <= function.blocks[b].instrs.len(),
        forall|reg: VReg|
            values.contains(Value::Reg(reg)) ==> #[trigger] reads_at(function.blocks[b], k, reg),
        forall|i: int| 0 <= i < values.len() ==> value_within(#[trigger] values[i], one.len()),
        same_of_read(function.blocks, one, other, function.names.len()),
    ensures
        forall|i: int|
            0 <= i < values.len() ==> known_of(#[trigger] values[i], one) == known_of(
                values[i],
                other,
            ),
{
    assert forall|i: int| 0 <= i < values.len() implies known_of(#[trigger] values[i], one)
        == known_of(values[i], other) by {
        if let Value::Reg(reg) = values[i] {
            assert(values.contains(Value::Reg(reg)));
            assert(reads_at(function.blocks[b], k, reg));
            assert(reg == VReg(reg.0 as int as u32));
            assert(is_read(function.blocks, VReg(reg.0 as int as u32)));
        }
    }
}

/// What is known the same is rewritten the same, and comes to the same.
#[verifier::spinoff_prover]
proof fn rewritten_the_same(instr: InstrView, one: Facts, other: Facts)
    requires
        forall|i: int|
            0 <= i < instr.operands().len() ==> known_of(#[trigger] instr.operands()[i], one)
                == known_of(instr.operands()[i], other),
    ensures
        rewritten_instr(instr, one).0 == rewritten_instr(instr, other).0,
        evaluated(instr, one) == evaluated(instr, other),
{
    let operands = instr.operands();
    assert(folded_operands(instr, one) =~= folded_operands(instr, other)) by {
        match instr {
            InstrView::Elem { base, index, len, .. } => {
                assert(operands[0] == base && operands[1] == index && operands[2] == len);
            },
            _ => {},
        }
    }
    let with = instr.with_operands(folded_operands(instr, one));
    match instr {
        InstrView::Copy { src, .. } => {
            assert(operands[0] == src);
        },
        InstrView::Bin { lhs, rhs, .. } => {
            assert(operands[0] == lhs && operands[1] == rhs);
        },
        InstrView::Cmp { lhs, rhs, .. } => {
            assert(operands[0] == lhs && operands[1] == rhs);
        },
        _ => {},
    }
    super::meaning::substitution_evaluates_the_same(instr, one);
    super::meaning::substitution_evaluates_the_same(instr, other);
    assert(evaluated(with, one) == evaluated(with, other));
}

/// What comes first is not about what comes after.
proof fn transferred_before(facts: Facts, a: Seq<InstrView>, b: Seq<InstrView>, n: int)
    requires
        0 <= n <= a.len(),
        n <= b.len(),
        forall|k: int| 0 <= k < n ==> a[k] == b[k],
    ensures
        transferred(facts, a, n) == transferred(facts, b, n),
    decreases n,
{
    if n > 0 {
        transferred_before(facts, a, b, n - 1);
    }
}

/// Dropping what nothing reads changes nothing known of what is read.
proof fn thinned_transfers_the_same(
    function: FunctionView,
    b: int,
    n: int,
    one: Facts,
    other: Facts,
)
    requires
        well_formed(function),
        0 <= b < function.blocks.len(),
        0 <= n <= function.blocks[b].instrs.len(),
        same_of_read(function.blocks, one, other, function.names.len()),
    ensures
        ({
            let left = staying(function.blocks, function.blocks[b].instrs, n);
            same_of_read(
                function.blocks,
                transferred(one, function.blocks[b].instrs, n),
                transferred(other, left, left.len() as int),
                function.names.len(),
            )
        }),
    decreases n,
{
    if n > 0 {
        let blocks = function.blocks;
        let instrs = blocks[b].instrs;
        let count = function.names.len();
        thinned_transfers_the_same(function, b, n - 1, one, other);
        let instr = instrs[n - 1];
        let before = staying(blocks, instrs, n - 1);
        let left = staying(blocks, instrs, n);
        let m = before.len() as int;
        let had = transferred(one, instrs, n - 1);
        let have = transferred(other, before, m);
        assert(block_within(blocks[b], count, blocks.len()));
        assert(instr_within(instrs[n - 1], count));
        if stays(blocks, instr) {
            transferred_before(other, before, left, m);
            assert forall|reg: VReg|
                instr.operands().contains(Value::Reg(reg)) implies #[trigger] reads_at(
                blocks[b],
                n - 1,
                reg,
            ) by {}
            operands_known_the_same(function, b, n - 1, instr.operands(), had, have);
            rewritten_the_same(instr, had, have);
            assert(left.len() == m + 1);
            assert(transferred(other, left, m + 1) == known_after(have, instr));
        } else {
            let dst = instr.written()->0;
            assert(left == before);
            assert(!is_read(blocks, dst));
            assert(dst == VReg(dst.0 as int as u32));
        }
    }
}

proof fn gathered_the_same(
    blocks: Seq<BlockView>,
    starts: (Facts, Facts),
    ones: Seq<Facts>,
    others: Seq<Facts>,
    into: Seq<BlockId>,
    n: int,
    count: nat,
)
    requires
        0 <= n <= into.len(),
        same_of_read(blocks, starts.0, starts.1, count),
        forall|k: int|
            0 <= k < into.len() ==> same_of_read(
                blocks,
                ones[(#[trigger] into[k]).0 as int],
                others[into[k].0 as int],
                count,
            ),
    ensures
        same_of_read(
            blocks,
            gathered(starts.0, ones, into, n),
            gathered(starts.1, others, into, n),
            count,
        ),
    decreases n,
{
    if n > 0 {
        gathered_the_same(blocks, starts, ones, others, into, n - 1, count);
        let k = n - 1;
        assert(same_of_read(
            blocks,
            ones[into[k].0 as int],
            others[into[k].0 as int],
            count,
        ));
    }
}

/// Whether two analyses say the same of every register a function reads.
spec fn agree_on_read(function: FunctionView, one: Analysis, other: Analysis) -> bool {
    let blocks = function.blocks;
    let count = function.names.len();
    &&& one.entries.len() == blocks.len()
    &&& one.exits.len() == blocks.len()
    &&& other.entries.len() == blocks.len()
    &&& other.exits.len() == blocks.len()
    &&& forall|b: int|
        0 <= b < blocks.len() ==> same_of_read(
            blocks,
            #[trigger] one.entries[b],
            other.entries[b],
            count,
        )
    &&& forall|b: int|
        0 <= b < blocks.len() ==> same_of_read(
            blocks,
            #[trigger] one.exits[b],
            other.exits[b],
            count,
        )
}

proof fn round_the_same(function: FunctionView, one: Analysis, other: Analysis, n: int)
    requires
        well_formed(function),
        0 <= n <= function.blocks.len(),
        agree_on_read(function, one, other),
    ensures
        agree_on_read(
            function,
            round_before(function.blocks, one, n),
            round_before(without_dead(function).blocks, other, n),
        ),
    decreases n,
{
    if n > 0 {
        let blocks = function.blocks;
        let left = without_dead(function).blocks;
        let count = function.names.len();
        let b = n - 1;
        round_the_same(function, one, other, b);
        let had = round_before(blocks, one, b);
        let have = round_before(left, other, b);
        assert(flow(left) =~= flow(blocks));
        let into = comes_from(blocks, b);
        predecessors_are(flow(blocks), b, blocks.len() as int);
        assert forall|k: int| 0 <= k < into.len() implies same_of_read(
            blocks,
            had.exits[(#[trigger] into[k]).0 as int],
            have.exits[into[k].0 as int],
            count,
        ) by {
            assert(into[k].0 < blocks.len());
            assert(had.exits[into[k].0 as int] == had.exits[into[k].0 as int]);
        }
        assert(had.entries[b] == had.entries[b]);
        gathered_the_same(
            blocks,
            (had.entries[b], have.entries[b]),
            had.exits,
            have.exits,
            into,
            into.len() as int,
            count,
        );
        thinned_transfers_the_same(
            function,
            b,
            blocks[b].instrs.len() as int,
            entry_of(blocks, had, b),
            entry_of(left, have, b),
        );
    }
}

proof fn rounds_the_same(function: FunctionView, n: nat)
    requires
        well_formed(function),
    ensures
        agree_on_read(function, rounds(function, n), rounds(without_dead(function), n)),
    decreases n,
{
    if n > 0 {
        rounds_the_same(function, (n - 1) as nat);
        round_the_same(
            function,
            rounds(function, (n - 1) as nat),
            rounds(without_dead(function), (n - 1) as nat),
            function.blocks.len() as int,
        );
    }
}

/// The analysis of a function and of what stays of it agree on what is read.
proof fn analysed_the_same(function: FunctionView)
    requires
        well_formed(function),
    ensures
        agree_on_read(function, analysed(function), analysed(without_dead(function))),
{
    let left = without_dead(function);
    elimination_keeps_well_formed(function);
    rounds_settle(function);
    rounds_settle(left);
    let n = choose|n: nat| analysed(function) == #[trigger] rounds(function, n);
    let m = choose|m: nat| analysed(left) == #[trigger] rounds(left, m);
    if n <= m {
        rounds_stay(function, n, m);
        rounds_the_same(function, m);
    } else {
        rounds_stay(left, m, n);
        rounds_the_same(function, n);
    }
}

/// Where what stays was.
proof fn stayed_from(blocks: Seq<BlockView>, instrs: Seq<InstrView>, n: int, k: int) -> (at: int)
    requires
        0 <= n <= instrs.len(),
        0 <= k < staying(blocks, instrs, n).len(),
    ensures
        0 <= at < n,
        staying(blocks, instrs, at).len() == k,
        staying(blocks, instrs, n)[k] == instrs[at],
        forall|j: int|
            0 <= j < k ==> staying(blocks, instrs, n)[j] == staying(blocks, instrs, at)[j],
    decreases n,
{
    if k == staying(blocks, instrs, n - 1).len() {
        n - 1
    } else {
        stayed_from(blocks, instrs, n - 1, k)
    }
}

/// Dropping what nothing reads leaves nothing to propagate.
proof fn elimination_leaves_nothing_to_propagate(function: FunctionView)
    requires
        well_formed(function),
        !propagation_changes(function),
    ensures
        !propagation_changes(without_dead(function)),
{
    let left = without_dead(function);
    let blocks = function.blocks;
    let count = function.names.len();
    let had = analysed(function).entries;
    let have = analysed(left).entries;
    analysed_the_same(function);
    let after = known_replaced(left).blocks;
    assert forall|b: int| 0 <= b < blocks.len() implies #[trigger] after[b] == left.blocks[b] by {
        let instrs = blocks[b].instrs;
        let n = instrs.len() as int;
        let stay = staying(blocks, instrs, n);
        let m = stay.len() as int;
        assert(known_replaced(function).blocks[b] == rewritten_block(blocks[b], had[b]));
        assert(same_of_read(blocks, had[b], have[b], count));
        assert(block_within(blocks[b], count, blocks.len()));
        rewriting_knows_the_same(had[b], instrs, n);
        rewriting_knows_the_same(have[b], stay, m);
        assert forall|k: int| 0 <= k < m implies #[trigger] after[b].instrs[k] == stay[k] by {
            let j = stayed_from(blocks, instrs, n, k);
            rewritten_at(have[b], stay, m, k);
            rewritten_at(had[b], instrs, n, j);
            let prefix = staying(blocks, instrs, j);
            transferred_before(have[b], stay, prefix, k);
            thinned_transfers_the_same(function, b, j, had[b], have[b]);
            assert(instr_within(instrs[j], count));
            assert forall|reg: VReg|
                instrs[j].operands().contains(Value::Reg(reg)) implies #[trigger] reads_at(
                blocks[b],
                j,
                reg,
            ) by {}
            let one = transferred(had[b], instrs, j);
            let other = transferred(have[b], stay, k);
            operands_known_the_same(function, b, j, instrs[j].operands(), one, other);
            rewritten_the_same(instrs[j], one, other);
            assert(known_replaced(function).blocks[b].instrs[j] == instrs[j]);
        }
        assert(after[b].instrs =~= stay);
        thinned_transfers_the_same(function, b, n, had[b], have[b]);
        let term = blocks[b].term;
        let one = transferred(had[b], instrs, n);
        let other = transferred(have[b], stay, m);
        assert forall|reg: VReg|
            term.operands().contains(Value::Reg(reg)) implies #[trigger] reads_at(
            blocks[b],
            n,
            reg,
        ) by {}
        operands_known_the_same(function, b, n, term.operands(), one, other);
        match term {
            TermView::Branch { cond, .. } => {
                assert(term.operands()[0] == cond);
            },
            TermView::Return(Some(value)) => {
                assert(term.operands()[0] == value);
            },
            _ => {},
        }
        assert(rewritten_term(term, one) == rewritten_term(term, other));
        assert(rewritten_term(term, one) == term);
    }
    assert(after =~= left.blocks);
    assert(flow(left.blocks) =~= flow(blocks));
    assert(reached_flags(left.blocks) =~= reached_flags(blocks));
    pruned_length(blocks, blocks.len() as int);
    pruned_length(left.blocks, blocks.len() as int);
}

// -- the passes, once more --------------------------------------------------

pub proof fn propagation_ends(function: FunctionView)
    requires
        well_formed(function),
    ensures
        well_formed(fully_propagated(function)),
        !propagation_changes(fully_propagated(function)),
    decreases weight(function.blocks),
{
    if propagation_changes(function) {
        propagation_runs_out(function);
        rounds_settle(function);
        replacing_keeps_well_formed(function);
        pruning_keeps_well_formed(known_replaced(function));
        propagation_ends(propagated(function));
    } else {
        nothing_propagated(function);
    }
}

pub proof fn elimination_ends(function: FunctionView)
    requires
        well_formed(function),
        !propagation_changes(function),
    ensures
        well_formed(fully_without_dead(function)),
        !propagation_changes(fully_without_dead(function)),
        without_dead(fully_without_dead(function)) == fully_without_dead(function),
    decreases instructions(function.blocks),
{
    elimination_keeps_well_formed(function);
    if without_dead(function).blocks != function.blocks {
        elimination_runs_out(function);
        elimination_leaves_nothing_to_propagate(function);
        elimination_ends(without_dead(function));
    } else {
        assert(without_dead(function) == function);
    }
}

/// **Optimising twice is optimising once**: the passes run until there is nothing
/// left for either of them to do.
pub proof fn optimising_again_changes_nothing(function: FunctionView)
    requires
        well_formed(function),
    ensures
        optimised(optimised(function)) == optimised(function),
{
    let middle = fully_propagated(function);
    let done = optimised(function);
    propagation_ends(function);
    elimination_ends(middle);
    nothing_propagated(done);
    assert(fully_propagated(done) == done);
    assert(fully_without_dead(done) == done);
}

/// The same of every function of a program.
pub proof fn optimising_a_program_again_changes_nothing(functions: Seq<FunctionView>)
    requires
        forall|i: int| 0 <= i < functions.len() ==> well_formed(#[trigger] functions[i]),
    ensures
        all_optimised(all_optimised(functions)) == all_optimised(functions),
{
    let once = all_optimised(functions);
    assert forall|i: int| 0 <= i < functions.len() implies optimised(#[trigger] once[i])
        == once[i] by {
        assert(well_formed(functions[i]));
        optimising_again_changes_nothing(functions[i]);
    }
    assert(all_optimised(once) =~= once);
}

} // verus!
