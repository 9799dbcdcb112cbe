//! Why rewriting changes nothing a program does.
//!
//! A run is followed from block to block by what every register holds. Nothing
//! is said of what a load, a call or a parameter puts into a register, so what
//! holds of every run here holds whatever those answer.

use vstd::prelude::*;

use super::facts::{
    analysed, block_transferred, comes_from, entry_of, evaluated, gathered, known_after, known_of,
    meet, met, nothing_to_gather, round, round_before, rounds, rounds_settle, speaks_of,
    transfer_keeps_count, transferred, Analysis, Facts, Known,
};
use super::rewrite::{
    folded_operands, rewritten_instr, rewritten_instrs, rewritten_term, substituted,
};
use crate::ir::block::{flow, BlockView, TermView};
use crate::ir::func::{block_within, well_formed, FunctionView};
use crate::ir::instr::{instr_within, InstrView};
use crate::ir::run::{
    all_written, answers, goes_to, held_by, may_write, steps, visits, walks, Held, Visit,
};
use crate::ir::ssa::dom::predecessors_are;
use crate::ir::value::{value_within, BlockId, VReg, Value};

verus! {

// -- runs -------------------------------------------------------------------

/// Whether control may go from the end of one block to the top of another: along
/// an edge, with every register but the parameters of the second as it was.
pub open spec fn enters(
    blocks: Seq<BlockView>,
    from: int,
    leaving: Held,
    to: int,
    entering: Held,
) -> bool {
    &&& 0 <= to < blocks.len()
    &&& flow(blocks)[from].contains(to)
    &&& entering.len() == leaving.len()
    &&& forall|r: int|
        0 <= r < leaving.len() && !blocks[to].params.contains(VReg(r as u32))
            ==> #[trigger] entering[r] == leaving[r]
}

/// Whether a run of visits is a way a program may go: from the entry, where
/// nothing is written but the parameters, along edges.
pub open spec fn is_run(function: FunctionView, run: Seq<Visit>) -> bool {
    &&& run.len() > 0
    &&& run[0].block == 0
    &&& forall|i: int| 0 <= i < run.len() ==> visits(function, #[trigger] run[i])
    &&& forall|r: int|
        0 <= r < function.names.len() && !function.blocks[0].params.contains(VReg(r as u32))
            ==> #[trigger] run[0].states[0][r] is None
    &&& forall|i: int|
        #![trigger run[i]]
        0 < i < run.len() ==> enters(
            function.blocks,
            run[i - 1].block,
            run[i - 1].states.last(),
            run[i].block,
            run[i].states[0],
        )
}

// -- what is known is true --------------------------------------------------

/// Whether a register is the parameter of a block.
pub open spec fn is_param(blocks: Seq<BlockView>, reg: VReg) -> bool {
    exists|b: int| 0 <= b < blocks.len() && (#[trigger] blocks[b]).params.contains(reg)
}

/// Whether no instruction writes the parameter of a block.
pub open spec fn params_apart(blocks: Seq<BlockView>) -> bool {
    forall|b: int, k: int|
        #![trigger blocks[b].instrs[k]]
        0 <= b < blocks.len() && 0 <= k < blocks[b].instrs.len() ==> match blocks[b].instrs[k].written() {
            Some(reg) => !is_param(blocks, reg),
            None => true,
        }
}

/// Whether what is known of a register is not contradicted by what it holds.
pub open spec fn agrees(fact: Option<Known>, word: Option<i64>) -> bool {
    match (fact, word) {
        (Some(Known::Const(c)), Some(held)) => held == c,
        _ => true,
    }
}

/// Whether what is known is true of what registers hold.
pub open spec fn true_of(facts: Facts, held: Held, blocks: Seq<BlockView>) -> bool {
    &&& facts.len() == held.len()
    &&& forall|r: int| 0 <= r < held.len() ==> agrees(#[trigger] facts[r], held[r])
    &&& forall|r: int|
        0 <= r < held.len() && !is_param(blocks, VReg(r as u32)) && held[r] is Some
            ==> #[trigger] facts[r] is Some
    &&& no_param_known(facts, blocks)
}

/// Whether nothing is said of the parameter of a block.
pub open spec fn no_param_known(facts: Facts, blocks: Seq<BlockView>) -> bool {
    forall|r: int|
        0 <= r < facts.len() && is_param(blocks, VReg(r as u32)) ==> #[trigger] facts[r] is None
}

/// What is known of an operand that has been written is what it holds.
proof fn known_is_held(facts: Facts, held: Held, blocks: Seq<BlockView>, value: Value)
    requires
        true_of(facts, held, blocks),
        value_within(value, held.len()),
        held_by(value, held) is Some,
    ensures
        known_of(value, facts) matches Known::Const(c) ==> held_by(value, held) == Some(c),
{
    if let Value::Reg(reg) = value {
        assert(facts[reg.0 as int] == facts[reg.0 as int]);
    }
}

/// What an instruction is known to produce is the only word it may write, and
/// where an answer is known there is one.
pub proof fn evaluation_is_right(
    facts: Facts,
    held: Held,
    blocks: Seq<BlockView>,
    instr: InstrView,
)
    requires
        true_of(facts, held, blocks),
        instr_within(instr, held.len()),
        all_written(instr.operands(), held),
    ensures
        evaluated(instr, facts) matches Known::Const(c) ==> forall|word: i64|
            may_write(instr, held, word) == (word == c),
{
    match instr {
        InstrView::Copy { src, .. } => {
            assert(value_within(instr.operands()[0], held.len()));
            assert(held_by(instr.operands()[0], held) is Some);
            known_is_held(facts, held, blocks, src);
        },
        InstrView::Bin { lhs, rhs, .. } => {
            assert(value_within(instr.operands()[0], held.len()));
            assert(value_within(instr.operands()[1], held.len()));
            assert(held_by(instr.operands()[0], held) is Some);
            assert(held_by(instr.operands()[1], held) is Some);
            known_is_held(facts, held, blocks, lhs);
            known_is_held(facts, held, blocks, rhs);
        },
        InstrView::Cmp { lhs, rhs, .. } => {
            assert(value_within(instr.operands()[0], held.len()));
            assert(value_within(instr.operands()[1], held.len()));
            assert(held_by(instr.operands()[0], held) is Some);
            assert(held_by(instr.operands()[1], held) is Some);
            known_is_held(facts, held, blocks, lhs);
            known_is_held(facts, held, blocks, rhs);
        },
        _ => {},
    }
}

proof fn step_stays_true(
    facts: Facts,
    before: Held,
    after: Held,
    blocks: Seq<BlockView>,
    instr: InstrView,
)
    requires
        true_of(facts, before, blocks),
        instr_within(instr, before.len()),
        steps(instr, before, after),
        instr.written() matches Some(reg) ==> !is_param(blocks, reg),
    ensures
        true_of(known_after(facts, instr), after, blocks),
{
    evaluation_is_right(facts, before, blocks, instr);
    let now = known_after(facts, instr);
    if let Some(dst) = instr.written() {
        let at = dst.0 as int;
        assert(dst == VReg(at as u32));
        assert forall|r: int| 0 <= r < after.len() implies agrees(#[trigger] now[r], after[r]) by {
            if r == at {
                assert(may_write(instr, before, after[at]->0));
            } else {
                assert(now[r] == facts[r]);
            }
        }
        assert forall|r: int|
            0 <= r < after.len() && !is_param(blocks, VReg(r as u32)) && after[r]
                is Some implies #[trigger] now[r] is Some by {
            if r != at {
                assert(now[r] == facts[r]);
            }
        }
        assert forall|r: int|
            0 <= r < now.len() && is_param(blocks, VReg(r as u32)) implies #[trigger] now[r]
            is None by {
            if r != at {
                assert(now[r] == facts[r]);
            }
        }
    }
}

pub proof fn walk_stays_true(
    facts: Facts,
    states: Seq<Held>,
    function: FunctionView,
    b: int,
    n: int,
    k: int,
)
    requires
        well_formed(function),
        params_apart(function.blocks),
        0 <= b < function.blocks.len(),
        0 <= k <= n <= function.blocks[b].instrs.len(),
        walks(function.blocks[b].instrs, states, n),
        states[0].len() == function.names.len(),
        true_of(facts, states[0], function.blocks),
    ensures
        states[k].len() == function.names.len(),
        true_of(
            transferred(facts, function.blocks[b].instrs, k),
            states[k],
            function.blocks,
        ),
    decreases k,
{
    if k > 0 {
        let instrs = function.blocks[b].instrs;
        walk_stays_true(facts, states, function, b, n, k - 1);
        assert(block_within(function.blocks[b], function.names.len(), function.blocks.len()));
        assert(instr_within(instrs[k - 1], function.names.len()));
        assert(steps(instrs[k - 1], states[k - 1], states[k - 1 + 1]));
        assert(function.blocks[b].instrs[k - 1].written() matches Some(reg) ==> !is_param(
            function.blocks,
            reg,
        ));
        step_stays_true(
            transferred(facts, instrs, k - 1),
            states[k - 1],
            states[k],
            function.blocks,
            instrs[k - 1],
        );
    }
}

// -- nothing is ever known of a parameter -----------------------------------

proof fn transfer_says_nothing(facts: Facts, function: FunctionView, b: int, n: int)
    requires
        well_formed(function),
        params_apart(function.blocks),
        0 <= b < function.blocks.len(),
        0 <= n <= function.blocks[b].instrs.len(),
        facts.len() == function.names.len(),
        no_param_known(facts, function.blocks),
    ensures
        no_param_known(transferred(facts, function.blocks[b].instrs, n), function.blocks),
    decreases n,
{
    if n > 0 {
        let instrs = function.blocks[b].instrs;
        transfer_says_nothing(facts, function, b, n - 1);
        assert(block_within(function.blocks[b], function.names.len(), function.blocks.len()));
        transfer_keeps_count(facts, instrs, n - 1);
        transfer_keeps_count(facts, instrs, n);
        let before = transferred(facts, instrs, n - 1);
        let now = transferred(facts, instrs, n);
        assert(function.blocks[b].instrs[n - 1].written() matches Some(reg) ==> !is_param(
            function.blocks,
            reg,
        ));
        assert forall|r: int|
            0 <= r < now.len() && is_param(
                function.blocks,
                VReg(r as u32),
            ) implies #[trigger] now[r] is None by {
            assert(before[r] is None);
            if let Some(dst) = instrs[n - 1].written() {
                if r == dst.0 {
                    assert(dst == VReg(r as u32));
                }
            }
        }
    }
}

proof fn gathering_says_nothing(
    start: Facts,
    exits: Seq<Facts>,
    into: Seq<BlockId>,
    n: int,
    blocks: Seq<BlockView>,
    registers: nat,
)
    requires
        0 <= n <= into.len(),
        start.len() == registers,
        forall|k: int|
            0 <= k < into.len() ==> exits[(#[trigger] into[k]).0 as int].len() == registers
                && no_param_known(exits[into[k].0 as int], blocks),
        no_param_known(start, blocks),
    ensures
        gathered(start, exits, into, n).len() == registers,
        no_param_known(gathered(start, exits, into, n), blocks),
    decreases n,
{
    if n > 0 {
        gathering_says_nothing(start, exits, into, n - 1, blocks, registers);
        let before = gathered(start, exits, into, n - 1);
        let other = exits[into[n - 1].0 as int];
        let now = gathered(start, exits, into, n);
        assert(other.len() == registers && no_param_known(other, blocks));
        assert forall|r: int|
            0 <= r < now.len() && is_param(blocks, VReg(r as u32)) implies #[trigger] now[r]
            is None by {
            assert(before[r] is None && other[r] is None);
        }
    }
}

spec fn says_nothing(at: Analysis, blocks: Seq<BlockView>) -> bool {
    &&& forall|b: int| 0 <= b < blocks.len() ==> no_param_known(#[trigger] at.entries[b], blocks)
    &&& forall|b: int| 0 <= b < blocks.len() ==> no_param_known(#[trigger] at.exits[b], blocks)
}

proof fn round_says_nothing(function: FunctionView, at: Analysis, n: int)
    requires
        well_formed(function),
        params_apart(function.blocks),
        0 <= n <= function.blocks.len(),
        speaks_of(at, function.blocks.len(), function.names.len()),
        says_nothing(at, function.blocks),
    ensures
        speaks_of(
            round_before(function.blocks, at, n),
            function.blocks.len(),
            function.names.len(),
        ),
        says_nothing(round_before(function.blocks, at, n), function.blocks),
    decreases n,
{
    if n > 0 {
        let blocks = function.blocks;
        let b = n - 1;
        round_says_nothing(function, at, b);
        let before = round_before(blocks, at, b);
        let after = round_before(blocks, at, n);
        let into = comes_from(blocks, b);
        predecessors_are(flow(blocks), b, blocks.len() as int);
        assert forall|k: int| 0 <= k < into.len() implies before.exits[(
        #[trigger] into[k]).0 as int].len() == function.names.len() && no_param_known(
            before.exits[into[k].0 as int],
            blocks,
        ) by {
            assert(into[k].0 < blocks.len());
        }
        let entry = entry_of(blocks, before, b);
        gathering_says_nothing(
            before.entries[b],
            before.exits,
            into,
            into.len() as int,
            blocks,
            function.names.len(),
        );
        transfer_says_nothing(entry, function, b, blocks[b].instrs.len() as int);
        assert(block_within(blocks[b], function.names.len(), blocks.len()));
        transfer_keeps_count(entry, blocks[b].instrs, blocks[b].instrs.len() as int);
    }
}

proof fn rounds_say_nothing(function: FunctionView, n: nat)
    requires
        well_formed(function),
        params_apart(function.blocks),
    ensures
        speaks_of(rounds(function, n), function.blocks.len(), function.names.len()),
        says_nothing(rounds(function, n), function.blocks),
    decreases n,
{
    if n > 0 {
        rounds_say_nothing(function, (n - 1) as nat);
        round_says_nothing(
            function,
            rounds(function, (n - 1) as nat),
            function.blocks.len() as int,
        );
    }
}

// -- the analysis is right --------------------------------------------------

/// An analysis that has settled leaves what it enters with.
proof fn settled_in_step(function: FunctionView, at: Analysis, n: int, b: int)
    requires
        0 <= b < n <= function.blocks.len(),
        at.entries.len() == function.blocks.len(),
        at.exits.len() == function.blocks.len(),
    ensures
        round_before(function.blocks, at, n).exits.len() == function.blocks.len(),
        round_before(function.blocks, at, n).entries.len() == function.blocks.len(),
        round_before(function.blocks, at, n).exits[b] == block_transferred(
            round_before(function.blocks, at, n).entries[b],
            function.blocks[b],
        ),
    decreases n,
{
    let before = round_before(function.blocks, at, n - 1);
    lengths_kept(function.blocks, at, n - 1);
    if b < n - 1 {
        settled_in_step(function, at, n - 1, b);
    }
}

proof fn lengths_kept(blocks: Seq<BlockView>, at: Analysis, n: int)
    requires
        0 <= n <= blocks.len(),
        at.entries.len() == blocks.len(),
        at.exits.len() == blocks.len(),
    ensures
        round_before(blocks, at, n).entries.len() == blocks.len(),
        round_before(blocks, at, n).exits.len() == blocks.len(),
        forall|k: int|
            n <= k < blocks.len() ==> #[trigger] round_before(blocks, at, n).entries[k]
                == at.entries[k],
        forall|k: int|
            n <= k < blocks.len() ==> #[trigger] round_before(blocks, at, n).exits[k]
                == at.exits[k],
    decreases n,
{
    if n > 0 {
        lengths_kept(blocks, at, n - 1);
    }
}

/// A round that changes nothing changes nothing on the way.
proof fn settled_all_along(blocks: Seq<BlockView>, at: Analysis, n: int)
    requires
        0 <= n <= blocks.len(),
        at.entries.len() == blocks.len(),
        at.exits.len() == blocks.len(),
        round(blocks, at) == at,
    ensures
        round_before(blocks, at, n) == at,
    decreases blocks.len() - n,
{
    if n < blocks.len() {
        settled_all_along(blocks, at, n + 1);
        lengths_kept(blocks, at, n);
        let before = round_before(blocks, at, n);
        let after = round_before(blocks, at, n + 1);
        assert(after == at);
        assert forall|k: int| 0 <= k < blocks.len() implies before.entries[k] == at.entries[k]
            && before.exits[k] == at.exits[k] by {
            if k != n {
                assert(after.entries[k] == before.entries[k]);
                assert(after.exits[k] == before.exits[k]);
            }
        }
        assert(before.entries =~= at.entries);
        assert(before.exits =~= at.exits);
    }
}

/// What is true of the state control leaves a predecessor in is true of the
/// state it enters a block in.
proof fn edge_stays_true(
    function: FunctionView,
    at: Analysis,
    from: int,
    leaving: Held,
    to: int,
    entering: Held,
)
    requires
        well_formed(function),
        speaks_of(at, function.blocks.len(), function.names.len()),
        says_nothing(at, function.blocks),
        round(function.blocks, at) == at,
        0 <= from < function.blocks.len(),
        leaving.len() == function.names.len(),
        true_of(at.exits[from], leaving, function.blocks),
        enters(function.blocks, from, leaving, to, entering),
    ensures
        true_of(at.entries[to], entering, function.blocks),
{
    let blocks = function.blocks;
    let into = comes_from(blocks, to);
    predecessors_are(flow(blocks), to, blocks.len() as int);
    assert(flow(blocks)[from].contains(to));
    assert(into.contains(BlockId(from as u32)));
    let k = choose|k: int| 0 <= k < into.len() && into[k] == BlockId(from as u32);
    settled_all_along(blocks, at, to);
    settled_all_along(blocks, at, to + 1);
    let entry = entry_of(blocks, at, to);
    assert(at.entries.update(to, entry) == at.entries);
    assert(entry == at.entries[to]);
    assert forall|k: int| 0 <= k < into.len() implies at.exits[(
    #[trigger] into[k]).0 as int].len() == function.names.len() by {
        assert(into[k].0 < blocks.len());
    }
    nothing_to_gather(
        at.entries[to],
        at.exits,
        into,
        into.len() as int,
        k,
        function.names.len(),
    );
    let facts = at.entries[to];
    let other = at.exits[from];
    assert(meet(facts, other) == facts);
    assert forall|r: int| 0 <= r < entering.len() implies agrees(
        #[trigger] facts[r],
        entering[r],
    ) by {
        assert(no_param_known(facts, blocks));
        if facts[r] is Some && entering[r] is Some {
            assert(!is_param(blocks, VReg(r as u32)));
            assert(!blocks[to].params.contains(VReg(r as u32)));
            assert(entering[r] == leaving[r]);
            assert(other[r] is Some);
            assert(meet(facts, other)[r] == met(facts[r], other[r]));
        }
    }
    assert forall|r: int|
        0 <= r < entering.len() && !is_param(blocks, VReg(r as u32)) && entering[r]
            is Some implies #[trigger] facts[r] is Some by {
        assert(!blocks[to].params.contains(VReg(r as u32)));
        assert(entering[r] == leaving[r]);
        assert(other[r] is Some);
        assert(meet(facts, other)[r] == met(facts[r], other[r]));
    }
}

/// What is said of the entry is true where nothing has been written.
pub proof fn start_is_known(function: FunctionView, held: Held)
    requires
        well_formed(function),
        params_apart(function.blocks),
        held.len() == function.names.len(),
        forall|r: int|
            0 <= r < held.len() && !function.blocks[0].params.contains(VReg(r as u32))
                ==> #[trigger] held[r] is None,
    ensures
        true_of(analysed(function).entries[0], held, function.blocks),
{
    let blocks = function.blocks;
    let at = analysed(function);
    rounds_settle(function);
    let n = choose|n: nat| at == #[trigger] rounds(function, n);
    rounds_say_nothing(function, n);
    let facts = at.entries[0];
    assert(no_param_known(facts, blocks));
    assert forall|r: int| 0 <= r < held.len() implies agrees(#[trigger] facts[r], held[r]) by {
        if facts[r] is Some {
            assert(!is_param(blocks, VReg(r as u32)));
            assert(!blocks[0].params.contains(VReg(r as u32)));
            assert(held[r] is None);
        }
    }
    assert forall|r: int|
        0 <= r < held.len() && !is_param(blocks, VReg(r as u32)) && held[r]
            is Some implies #[trigger] facts[r] is Some by {
        assert(!blocks[0].params.contains(VReg(r as u32)));
        assert(held[r] is None);
    }
}

/// What is said of a block is true where a visit it is said of goes on to it.
pub proof fn arrival_is_known(function: FunctionView, from: Visit, to: int, entering: Held)
    requires
        well_formed(function),
        params_apart(function.blocks),
        visits(function, from),
        true_of(
            analysed(function).entries[from.block],
            from.states[0],
            function.blocks,
        ),
        enters(function.blocks, from.block, from.states.last(), to, entering),
    ensures
        true_of(analysed(function).entries[to], entering, function.blocks),
{
    let at = analysed(function);
    rounds_settle(function);
    let n = choose|n: nat| at == #[trigger] rounds(function, n);
    rounds_say_nothing(function, n);
    let count = function.blocks[from.block].instrs.len() as int;
    walk_stays_true(at.entries[from.block], from.states, function, from.block, count, count);
    settled_in_step(function, at, function.blocks.len() as int, from.block);
    assert(from.states.last() == from.states[count]);
    edge_stays_true(function, at, from.block, from.states.last(), to, entering);
}

pub proof fn visit_is_known(function: FunctionView, run: Seq<Visit>, i: int)
    requires
        well_formed(function),
        params_apart(function.blocks),
        is_run(function, run),
        0 <= i < run.len(),
    ensures
        true_of(
            analysed(function).entries[run[i].block],
            run[i].states[0],
            function.blocks,
        ),
        run[i].states[0].len() == function.names.len(),
    decreases i,
{
    assert(visits(function, run[i]));
    if i == 0 {
        start_is_known(function, run[0].states[0]);
    } else {
        visit_is_known(function, run, i - 1);
        assert(visits(function, run[i - 1]));
        arrival_is_known(function, run[i - 1], run[i].block, run[i].states[0]);
    }
}

/// **What is known is true.** Wherever a run gets to, a register that is known
/// to hold a constant, and has been written, holds that constant.
pub proof fn what_is_known_is_true(function: FunctionView, run: Seq<Visit>, i: int, k: int)
    requires
        well_formed(function),
        params_apart(function.blocks),
        is_run(function, run),
        0 <= i < run.len(),
        0 <= k <= function.blocks[run[i].block].instrs.len(),
    ensures
        true_of(
            transferred(
                analysed(function).entries[run[i].block],
                function.blocks[run[i].block].instrs,
                k,
            ),
            run[i].states[k],
            function.blocks,
        ),
        run[i].states[k].len() == function.names.len(),
{
    visit_is_known(function, run, i);
    assert(visits(function, run[i]));
    walk_stays_true(
        analysed(function).entries[run[i].block],
        run[i].states,
        function,
        run[i].block,
        function.blocks[run[i].block].instrs.len() as int,
        k,
    );
}

// -- rewriting is right -----------------------------------------------------

/// Substituting learns nothing and forgets nothing.
pub proof fn substitution_evaluates_the_same(instr: InstrView, facts: Facts)
    ensures
        evaluated(substituted(instr, facts), facts) == evaluated(instr, facts),
        substituted(instr, facts).written() == instr.written(),
{
}

/// Rewriting knows what the analysis knows.
pub proof fn rewriting_knows_the_same(facts: Facts, instrs: Seq<InstrView>, n: int)
    requires
        0 <= n <= instrs.len(),
    ensures
        rewritten_instrs(facts, instrs, n).1 == transferred(facts, instrs, n),
        rewritten_instrs(facts, instrs, n).0.len() == n,
    decreases n,
{
    if n > 0 {
        rewriting_knows_the_same(facts, instrs, n - 1);
        substitution_evaluates_the_same(instrs[n - 1], transferred(facts, instrs, n - 1));
    }
}

/// Whether two instructions do the same where registers hold what they hold:
/// the second is the first with operands of the same worth, or it is the one
/// word the first may write.
pub open spec fn does_the_same(before: InstrView, after: InstrView, held: Held) -> bool {
    ||| {
        &&& after == before.with_operands(after.operands())
        &&& after.operands().len() == before.operands().len()
        &&& forall|i: int|
            0 <= i < before.operands().len() ==> held_by(#[trigger] after.operands()[i], held)
                == held_by(before.operands()[i], held)
    }
    ||| after matches InstrView::Const { dst, val } && before.written() == Some(dst) && forall|
        word: i64,
    | may_write(before, held, word) == (word == val)
}

/// Whether a bounds check that an element had is still there, or the index is in
/// range.
pub open spec fn check_kept(before: InstrView, after: InstrView) -> bool {
    match (before, after) {
        (InstrView::Elem { .. }, InstrView::Elem { index, len, .. }) => before.may_fail()
            && !after.may_fail() ==> match (index, len) {
            (Value::Const(at), Value::Const(count)) => 0 <= at < count || before.operands()[1]
                is Const,
            _ => true,
        },
        _ => true,
    }
}

pub proof fn instr_does_the_same(
    facts: Facts,
    held: Held,
    blocks: Seq<BlockView>,
    instr: InstrView,
)
    requires
        true_of(facts, held, blocks),
        instr_within(instr, held.len()),
        all_written(instr.operands(), held),
    ensures
        does_the_same(instr, rewritten_instr(instr, facts).0, held),
        check_kept(instr, rewritten_instr(instr, facts).0),
{
    let operands = folded_operands(instr, facts);
    let with = substituted(instr, facts);
    let after = rewritten_instr(instr, facts).0;
    assert(with.operands() =~= operands);
    substitution_evaluates_the_same(instr, facts);
    evaluation_is_right(facts, held, blocks, instr);
    assert forall|i: int| 0 <= i < instr.operands().len() implies held_by(
        #[trigger] operands[i],
        held,
    ) == held_by(instr.operands()[i], held) by {
        assert(value_within(instr.operands()[i], held.len()));
        assert(held_by(instr.operands()[i], held) is Some);
        known_is_held(facts, held, blocks, instr.operands()[i]);
    }
    assert(operands.len() == instr.operands().len());
}

/// **Rewriting changes nothing a program does.** Wherever a run gets to, each
/// rewritten instruction does what the one it stands for does, no bounds check
/// is lost for an index that is out of range, and the rewritten ending goes, and
/// answers, as the one it stands for.
pub proof fn rewriting_keeps_what_is_done(function: FunctionView, run: Seq<Visit>, i: int, k: int)
    requires
        well_formed(function),
        params_apart(function.blocks),
        is_run(function, run),
        0 <= i < run.len(),
        0 <= k <= function.blocks[run[i].block].instrs.len(),
        k == function.blocks[run[i].block].instrs.len() ==> all_written(
            function.blocks[run[i].block].term.head(),
            run[i].states[k],
        ),
    ensures
        ({
            let block = function.blocks[run[i].block];
            let facts = analysed(function).entries[run[i].block];
            let count = block.instrs.len() as int;
            let (instrs, known) = rewritten_instrs(facts, block.instrs, count);
            let held = run[i].states[k];
            if k < count {
                does_the_same(block.instrs[k], instrs[k], held) && check_kept(
                    block.instrs[k],
                    instrs[k],
                )
            } else {
                goes_to(rewritten_term(block.term, known), held) == goes_to(block.term, held)
                    && answers(rewritten_term(block.term, known), held) == answers(
                    block.term,
                    held,
                )
            }
        }),
{
    let blocks = function.blocks;
    let block = blocks[run[i].block];
    let facts = analysed(function).entries[run[i].block];
    let count = block.instrs.len() as int;
    let held = run[i].states[k];
    what_is_known_is_true(function, run, i, k);
    assert(visits(function, run[i]));
    assert(block_within(block, function.names.len(), blocks.len()));
    rewriting_knows_the_same(facts, block.instrs, k);
    rewriting_knows_the_same(facts, block.instrs, count);
    let known = transferred(facts, block.instrs, k);
    if k < count {
        assert(steps(block.instrs[k], run[i].states[k], run[i].states[k + 1]));
        assert(instr_within(block.instrs[k], function.names.len()));
        instr_does_the_same(known, held, blocks, block.instrs[k]);
        rewritten_at(facts, block.instrs, count, k);
    } else {
        match block.term {
            TermView::Branch { cond, .. } => {
                assert(block.term.operands()[0] == cond);
                assert(block.term.head()[0] == cond);
                known_is_held(known, held, blocks, cond);
            },
            TermView::Return(Some(value)) => {
                assert(block.term.operands()[0] == value);
                assert(block.term.head()[0] == value);
                known_is_held(known, held, blocks, value);
            },
            _ => {},
        }
    }
}

/// Each instruction is rewritten with what is known before it.
pub proof fn rewritten_at(facts: Facts, instrs: Seq<InstrView>, n: int, k: int)
    requires
        0 <= k < n <= instrs.len(),
    ensures
        rewritten_instrs(facts, instrs, n).0[k] == rewritten_instr(
            instrs[k],
            transferred(facts, instrs, k),
        ).0,
    decreases n,
{
    rewriting_knows_the_same(facts, instrs, n - 1);
    if k < n - 1 {
        rewritten_at(facts, instrs, n - 1, k);
    }
}

} // verus!
