//! Why giving two registers one between them changes nothing a function does.
//!
//! A run is followed by a run of what the function becomes: wherever a register
//! may still be read, the register that stands for it holds what it holds. A
//! write to one of two registers that share cannot lose what the other holds,
//! because nothing that may still be read shares with what is written.

use vstd::prelude::*;

use super::block::{flow, BlockView, TermView};
use super::coalesce::{
    alive_before, apart, clash_at, coalesced, coalescing_joins_only_what_is_apart, copies_itself,
    interfere, leaders_of, leaders_within, led_block, led_instr, led_instrs, led_term, led_values,
    Leaders,
};
use super::deeds::{
    asks_the_same, deed, deeds, does_as, given, is_deed, run_answer, run_deeds, same_deeds,
    unnamed, visit_deeds, words,
};
use super::func::{block_within, hands_nothing, target_args_empty, well_formed, FunctionView};
use super::halt::{done_before, goes_through, halts, may_stop, stops_as};
use super::instr::{instr_within, InstrView};
use super::liveness::{
    exposed, live_after, live_at, live_through, live_where_exposed, reads_at, writes,
    written_before,
};
use super::run::{
    all_written, goes, goes_to, held_by, is_execution, may_write, nothing_held, steps, visits,
    walks, Held, Visit,
};
use super::ssa::leaving::shorter_execution;
use super::ssa::rename::operands_keep_written;
use super::value::{value_within, VReg, Value};

verus! {

/// Whether every register that may still be read is held by the register that
/// stands for it.
pub open spec fn shared(
    function: FunctionView,
    b: int,
    k: int,
    held: Held,
    other: Held,
) -> bool {
    &&& held.len() == function.names.len()
    &&& other.len() == function.names.len()
    &&& forall|r: int|
        0 <= r < held.len() && #[trigger] alive_before(function.blocks, b, k, VReg(r as u32))
            ==> other[leaders_of(function)[r].0 as int] == held[r]
}

/// What a step reads is worth the same.
proof fn read_the_same(
    function: FunctionView,
    b: int,
    k: int,
    values: Seq<Value>,
    held: Held,
    other: Held,
)
    requires
        shared(function, b, k, held, other),
        0 <= b < function.blocks.len(),
        0 <= k <= function.blocks[b].instrs.len(),
        forall|i: int|
            0 <= i < values.len() ==> value_within(#[trigger] values[i], function.names.len()),
        forall|reg: VReg| #[trigger]
            values.contains(Value::Reg(reg)) ==> reads_at(function.blocks[b], k, reg),
    ensures
        forall|i: int|
            0 <= i < values.len() ==> held_by(
                #[trigger] led_values(leaders_of(function), values)[i],
                other,
            ) == held_by(values[i], held),
{
    let leaders = leaders_of(function);
    assert forall|i: int| 0 <= i < values.len() implies held_by(
        #[trigger] led_values(leaders, values)[i],
        other,
    ) == held_by(values[i], held) by {
        assert(value_within(values[i], function.names.len()));
        if let Value::Reg(reg) = values[i] {
            let r = reg.0 as int;
            assert(reg == VReg(r as u32));
            assert(values.contains(Value::Reg(reg)));
            assert(reads_at(function.blocks[b], k, reg));
            assert(alive_before(function.blocks, b, k, VReg(r as u32)));
        }
    }
}

/// An instruction with other registers reads and writes those.
#[verifier::spinoff_prover]
#[verifier::rlimit(40)]
proof fn led_is_the_same(leaders: Leaders, instr: InstrView)
    ensures
        led_instr(leaders, instr).operands() == led_values(leaders, instr.operands()),
        led_instr(leaders, instr).written() == match instr.written() {
            Some(reg) => Some(leaders[reg.0 as int]),
            None => None,
        },
{
    let operands = led_values(leaders, instr.operands());
    let with = instr.with_operands(operands);
    operands_keep_written(instr, operands);
    assert(with.operands() =~= operands);
    if let Some(reg) = instr.written() {
        assert(with.with_def(leaders[reg.0 as int]).operands() =~= operands);
    }
}

/// The last operands put in are the ones there are.
proof fn operands_replaced(instr: InstrView, first: Seq<Value>, last: Seq<Value>)
    ensures
        instr.with_operands(first).with_operands(last) == instr.with_operands(last),
        is_deed(instr.with_operands(first)) == is_deed(instr),
{
}

/// It does not matter whether the operands or the result is put in first.
proof fn result_apart_from_operands(instr: InstrView, reg: VReg, operands: Seq<Value>)
    requires
        instr.written() is Some,
    ensures
        instr.with_def(reg).with_operands(operands) == instr.with_operands(operands).with_def(reg),
        is_deed(instr.with_def(reg)) == is_deed(instr),
{
}

/// Which register is written makes no difference where it is not named.
proof fn unnamed_whichever(instr: InstrView, reg: VReg)
    requires
        instr.written() is Some,
    ensures
        unnamed(instr.with_def(reg)) == unnamed(instr),
{
}

/// Given the same words, an instruction with other registers does the same.
proof fn led_does_the_same(leaders: Leaders, instr: InstrView, given: Seq<Value>)
    ensures
        is_deed(led_instr(leaders, instr)) == is_deed(instr),
        unnamed(led_instr(leaders, instr).with_operands(given)) == unnamed(
            instr.with_operands(given),
        ),
{
    let operands = led_values(leaders, instr.operands());
    operands_replaced(instr, operands, given);
    operands_keep_written(instr, operands);
    operands_keep_written(instr, given);
    if let Some(reg) = instr.written() {
        let to = leaders[reg.0 as int];
        result_apart_from_operands(instr.with_operands(operands), to, given);
        unnamed_whichever(instr.with_operands(given), to);
    }
}

/// What may be written depends on the words read, not on where they are.
#[verifier::spinoff_prover]
proof fn led_may_write(leaders: Leaders, instr: InstrView, held: Held, other: Held, word: i64)
    requires
        may_write(instr, held, word),
        forall|i: int|
            0 <= i < instr.operands().len() ==> held_by(
                #[trigger] led_values(leaders, instr.operands())[i],
                other,
            ) == held_by(instr.operands()[i], held),
    ensures
        may_write(led_instr(leaders, instr), other, word),
{
    let operands = instr.operands();
    let led = led_values(leaders, operands);
    match instr {
        InstrView::Copy { .. } => {
            assert(held_by(led[0], other) == held_by(operands[0], held));
        },
        InstrView::Bin { .. } => {
            assert(held_by(led[0], other) == held_by(operands[0], held));
            assert(held_by(led[1], other) == held_by(operands[1], held));
        },
        InstrView::Cmp { .. } => {
            assert(held_by(led[0], other) == held_by(operands[0], held));
            assert(held_by(led[1], other) == held_by(operands[1], held));
        },
        InstrView::Elem { .. } => {
            assert(held_by(led[1], other) == held_by(operands[1], held));
            assert(held_by(led[2], other) == held_by(operands[2], held));
        },
        _ => {},
    }
}

/// A write keeps what may still be read: nothing of that shares with what is
/// written.
proof fn written_apart(function: FunctionView, b: int, k: int, dst: VReg, r: int)
    requires
        well_formed(function),
        0 <= b < function.blocks.len(),
        0 <= k < function.blocks[b].instrs.len(),
        function.blocks[b].instrs[k].written() == Some(dst),
        dst.0 < function.names.len(),
        0 <= r < function.names.len(),
        r != dst.0,
        alive_before(function.blocks, b, k + 1, VReg(r as u32)),
    ensures
        leaders_of(function)[r] != leaders_of(function)[dst.0 as int],
        alive_before(function.blocks, b, k, VReg(r as u32)),
{
    let reg = VReg(r as u32);
    assert(clash_at(function.blocks, b, k, dst, reg));
    assert(interfere(function.blocks, dst, reg));
    if leaders_of(function)[r] == leaders_of(function)[dst.0 as int] {
        coalescing_joins_only_what_is_apart(function, dst, reg);
    }
}

/// One step. What is left of a copy whose two ends share is nothing.
proof fn shared_step(
    function: FunctionView,
    b: int,
    k: int,
    held: Held,
    next: Held,
    other: Held,
) -> (other_next: Held)
    requires
        well_formed(function),
        0 <= b < function.blocks.len(),
        0 <= k < function.blocks[b].instrs.len(),
        shared(function, b, k, held, other),
        steps(function.blocks[b].instrs[k], held, next),
    ensures
        shared(function, b, k + 1, next, other_next),
        ({
            let instr = function.blocks[b].instrs[k];
            let led = led_instr(leaders_of(function), instr);
            if copies_itself(led) {
                other_next == other && !is_deed(instr)
            } else {
                steps(led, other, other_next) && deed(led, other, other_next) == deed(
                    instr,
                    held,
                    next,
                )
            }
        }),
{
    let leaders = leaders_of(function);
    let instr = function.blocks[b].instrs[k];
    let led = led_instr(leaders, instr);
    let operands = instr.operands();
    let count = function.names.len();
    assert(block_within(function.blocks[b], count, function.blocks.len()));
    assert(instr_within(instr, count));
    leaders_within(function);
    led_is_the_same(leaders, instr);
    led_does_the_same(leaders, instr, words(operands, held));
    read_the_same(function, b, k, operands, held, other);
    assert(words(led.operands(), other) =~= words(operands, held)) by {
        assert forall|i: int| 0 <= i < operands.len() implies #[trigger] words(
            led.operands(),
            other,
        )[i] == words(operands, held)[i] by {
            assert(held_by(led_values(leaders, operands)[i], other) == held_by(
                operands[i],
                held,
            ));
        }
    }
    assert(all_written(led.operands(), other)) by {
        assert forall|i: int| 0 <= i < operands.len() implies held_by(
            #[trigger] led.operands()[i],
            other,
        ) is Some by {
            assert(held_by(operands[i], held) is Some);
        }
    }
    match instr.written() {
        Some(dst) => {
            let to = leaders[dst.0 as int].0 as int;
            let word = next[dst.0 as int];
            let other_next = if copies_itself(led) {
                assert(instr is Copy);
                assert(held_by(led_values(leaders, operands)[0], other) == held_by(
                    operands[0],
                    held,
                ));
                assert(other[to] == word);
                other
            } else {
                led_may_write(leaders, instr, held, other, word->0);
                other.update(to, word)
            };
            assert forall|r: int|
                0 <= r < next.len() && #[trigger] alive_before(
                    function.blocks,
                    b,
                    k + 1,
                    VReg(r as u32),
                ) implies other_next[leaders[r].0 as int] == next[r] by {
                if r != dst.0 {
                    written_apart(function, b, k, dst, r);
                }
            }
            other_next
        },
        None => {
            assert forall|r: int|
                0 <= r < next.len() && #[trigger] alive_before(
                    function.blocks,
                    b,
                    k + 1,
                    VReg(r as u32),
                ) implies other[leaders[r].0 as int] == next[r] by {
                assert(alive_before(function.blocks, b, k, VReg(r as u32)));
            }
            other
        },
    }
}

/// The first `n` steps of a visit.
proof fn shared_steps(function: FunctionView, visit: Visit, other: Held, n: int) -> (others: Seq<
    Held,
>)
    requires
        well_formed(function),
        goes_through(function, visit, n),
        shared(function, visit.block, 0, visit.states[0], other),
    ensures
        ({
            let instrs = function.blocks[visit.block].instrs;
            let left = led_instrs(leaders_of(function), instrs, n);
            &&& others.len() == left.len() + 1
            &&& others[0] == other
            &&& forall|k: int|
                0 <= k < left.len() ==> #[trigger] steps(left[k], others[k], others[k + 1])
            &&& shared(function, visit.block, n, visit.states[n], others.last())
            &&& deeds(left, others, left.len() as int) == deeds(instrs, visit.states, n)
        }),
    decreases n,
{
    let leaders = leaders_of(function);
    let instrs = function.blocks[visit.block].instrs;
    if n == 0 {
        seq![other]
    } else {
        let before = shared_steps(function, visit, other, n - 1);
        let rest = led_instrs(leaders, instrs, n - 1);
        let left = led_instrs(leaders, instrs, n);
        let led = led_instr(leaders, instrs[n - 1]);
        assert(steps(instrs[n - 1], visit.states[n - 1], visit.states[n - 1 + 1]));
        let last = shared_step(
            function,
            visit.block,
            n - 1,
            visit.states[n - 1],
            visit.states[n],
            before.last(),
        );
        led_does_the_same(leaders, instrs[n - 1], seq![]);
        if copies_itself(led) {
            before
        } else {
            let others = before.push(last);
            let m = rest.len() as int;
            assert(left[m] == led);
            assert forall|k: int| 0 <= k < left.len() implies #[trigger] steps(
                left[k],
                others[k],
                others[k + 1],
            ) by {
                if k < m {
                    assert(left[k] == rest[k]);
                    assert(steps(rest[k], before[k], before[k + 1]));
                    assert(others[k] == before[k] && others[k + 1] == before[k + 1]);
                }
            }
            same_deeds(rest, before, left, others, m);
            assert(others[m] == before.last());
            others
        }
    }
}

/// What may still be read before a step that nothing before it writes is live at
/// the top of the block.
proof fn alive_at_the_top(blocks: Seq<BlockView>, b: int, k: int, reg: VReg)
    requires
        0 <= b < blocks.len(),
        0 <= k <= blocks[b].instrs.len(),
        alive_before(blocks, b, k, reg),
        !written_before(blocks[b], k, reg),
    ensures
        live_at(blocks, b, reg),
    decreases blocks[b].instrs.len() - k,
{
    let block = blocks[b];
    if reads_at(block, k, reg) {
        assert(exposed(block, reg));
        live_where_exposed(blocks, b, reg);
    } else if k >= block.instrs.len() {
        assert(!writes(block, reg));
        live_through(blocks, b, reg);
    } else {
        alive_at_the_top(blocks, b, k + 1, reg);
    }
}

/// An edge between two blocks that hand each other nothing.
proof fn shared_edge(
    function: FunctionView,
    from: int,
    leaving: Held,
    to: int,
    entering: Held,
    other: Held,
)
    requires
        well_formed(function),
        hands_nothing(function.blocks),
        0 <= from < function.blocks.len(),
        0 <= to < function.blocks.len(),
        goes(function.blocks, from, leaving, to, entering),
        shared(function, from, function.blocks[from].instrs.len() as int, leaving, other),
    ensures
        entering == leaving,
        shared(function, to, 0, entering, other),
        ({
            let leaders = leaders_of(function);
            let term = led_term(leaders, function.blocks[from].term);
            &&& goes_to(term, other) is Some
            &&& (goes_to(term, other)->0).block.0 == to
            &&& (goes_to(term, other)->0).args.len() == 0
        }),
{
    let blocks = function.blocks;
    let leaders = leaders_of(function);
    let block = blocks[from];
    let term = block.term;
    let count = block.instrs.len() as int;
    let target = goes_to(term, leaving)->0;
    assert(block_within(block, function.names.len(), blocks.len()));
    assert(blocks[to].params.len() == 0);
    read_the_same(function, from, count, term.operands(), leaving, other);
    let led = led_values(leaders, term.operands());
    assert(target_args_empty(block));
    match term {
        TermView::Jump(only) => {
            assert(term.targets()[0] == only);
            assert(led_term(leaders, term).targets()[0].block == only.block);
        },
        TermView::Branch { cond, then_blk, else_blk } => {
            assert(term.targets()[0] == then_blk && term.targets()[1] == else_blk);
            assert(term.operands()[0] == cond);
            assert(held_by(led[0], other) == held_by(term.operands()[0], leaving));
            assert(led_term(leaders, term)->cond == led[0]);
        },
        TermView::Return(_) => {},
    }
    assert(flow(blocks)[from].contains(to)) by {
        let k: int = match term {
            TermView::Branch { then_blk, .. } => if target == then_blk {
                0
            } else {
                1
            },
            _ => 0,
        };
        assert(term.targets()[k] == target);
        assert(term.successors()[k] == target.block);
        assert(flow(blocks)[from][k] == to);
    }
    assert forall|r: int|
        0 <= r < entering.len() && #[trigger] alive_before(
            blocks,
            to,
            0,
            VReg(r as u32),
        ) implies other[leaders[r].0 as int] == entering[r] by {
        let reg = VReg(r as u32);
        alive_at_the_top(blocks, to, 0, reg);
        assert(live_after(blocks, from, reg));
        assert(alive_before(blocks, from, count, reg));
    }
}

proof fn follow(function: FunctionView, after: FunctionView, run: Seq<Visit>) -> (other: Seq<Visit>)
    requires
        well_formed(function),
        hands_nothing(function.blocks),
        after.names.len() == function.names.len(),
        after.blocks == function.blocks.map_values(
            |block: BlockView| led_block(leaders_of(function), block),
        ),
        is_execution(function, run),
    ensures
        does_as(function, run, after, other),
        run_deeds(after, other) == run_deeds(function, run),
        other.len() == run.len(),
        other.last().block == run.last().block,
        shared(
            function,
            run.last().block,
            function.blocks[run.last().block].instrs.len() as int,
            run.last().states.last(),
            other.last().states.last(),
        ),
    decreases run.len(),
{
    let blocks = function.blocks;
    let leaders = leaders_of(function);
    let n = run.len() - 1;
    let visit = run[n];
    assert(visits(function, run[n]));
    let count = blocks[visit.block].instrs.len() as int;
    assert(visit.states[count] == visit.states.last());
    let found: (Seq<Visit>, Held) = if run.len() == 1 {
        leaders_within(function);
        (seq![], nothing_held(after.names.len()))
    } else {
        let shorter = run.drop_last();
        shorter_execution(function, run);
        let before = follow(function, after, shorter);
        assert(visits(function, run[n - 1]));
        assert(shorter.last() == run[n - 1]);
        assert(goes(
            blocks,
            run[n - 1].block,
            run[n - 1].states.last(),
            run[n].block,
            run[n].states[0],
        ));
        let entering = before.last().states.last();
        shared_edge(
            function,
            run[n - 1].block,
            run[n - 1].states.last(),
            run[n].block,
            run[n].states[0],
            entering,
        );
        assert(goes(after.blocks, run[n - 1].block, entering, visit.block, entering)) by {
            assert(after.blocks[visit.block].params == blocks[visit.block].params);
            assert(blocks[visit.block].params.len() == 0);
        }
        (before, entering)
    };
    let (before, entering) = found;
    let states = shared_steps(function, visit, entering, count);
    let one = Visit { block: visit.block, states };
    let other = before.push(one);
    let left = led_instrs(leaders, blocks[visit.block].instrs, count);
    assert(after.blocks[visit.block].instrs == left);
    assert(walks(left, states, left.len() as int));
    assert(visits(after, one));
    assert(visit_deeds(after, one) == visit_deeds(function, visit));
    assert(other.drop_last() =~= before);
    assert forall|i: int| 0 <= i < other.len() implies visits(after, #[trigger] other[i]) by {
        if i < n {
            assert(other[i] == before[i]);
        }
    }
    assert forall|i: int|
        #![trigger other[i]]
        0 < i < other.len() implies goes(
        after.blocks,
        other[i - 1].block,
        other[i - 1].states.last(),
        other[i].block,
        other[i].states[0],
    ) by {
        if i < n {
            assert(other[i] == before[i] && other[i - 1] == before[i - 1]);
        } else {
            assert(other[i - 1] == before.last());
        }
    }
    if n > 0 {
        assert(other[0] == before[0]);
    }
    assert(run_deeds(after, other) == run_deeds(function, run)) by {
        reveal_with_fuel(run_deeds, 2);
        assert(other.last() == one);
        if n == 0 {
            assert(run.drop_last() =~= seq![]);
        }
        assert(run_deeds(after, before) == run_deeds(function, run.drop_last()));
    }
    asks_the_same(run_deeds(function, run));
    let term = blocks[visit.block].term;
    if run_answer(function, run) is Some {
        assert(block_within(blocks[visit.block], function.names.len(), blocks.len()));
        read_the_same(
            function,
            visit.block,
            count,
            term.operands(),
            visit.states.last(),
            states.last(),
        );
        if let TermView::Return(Some(value)) = term {
            assert(term.operands()[0] == value);
            assert(term.head()[0] == value);
            assert(led_term(leaders, term) == TermView::Return(
                Some(led_values(leaders, term.operands())[0]),
            ));
        }
        assert(all_written(led_term(leaders, term).head(), states.last()));
    }
    other
}

/// **Sharing registers changes nothing a function does.** Every run of a function
/// whose blocks hand each other nothing is followed by a run of what coalescing
/// makes of it, block for block, that does the same.
pub proof fn coalescing_keeps_what_is_done(function: FunctionView, run: Seq<Visit>) -> (other: Seq<
    Visit,
>)
    requires
        well_formed(function),
        hands_nothing(function.blocks),
        is_execution(function, run),
    ensures
        does_as(function, run, coalesced(function), other),
        run_deeds(coalesced(function), other) == run_deeds(function, run),
{
    if leaders_of(function) == apart(function.names.len()) {
        asks_the_same(run_deeds(function, run));
        run
    } else {
        follow(function, coalesced(function), run)
    }
}

/// What is left of some instructions is what is left of more.
proof fn led_further(leaders: Leaders, instrs: Seq<InstrView>, n: int, m: int)
    requires
        0 <= n <= m <= instrs.len(),
    ensures
        led_instrs(leaders, instrs, n).len() <= led_instrs(leaders, instrs, m).len(),
        forall|k: int|
            0 <= k < led_instrs(leaders, instrs, n).len() ==> #[trigger] led_instrs(
                leaders,
                instrs,
                m,
            )[k] == led_instrs(leaders, instrs, n)[k],
    decreases m - n,
{
    if n < m {
        led_further(leaders, instrs, n, m - 1);
        let before = led_instrs(leaders, instrs, m - 1);
        let least = led_instrs(leaders, instrs, n);
        assert forall|k: int| 0 <= k < least.len() implies #[trigger] led_instrs(
            leaders,
            instrs,
            m,
        )[k] == least[k] by {
            assert(before[k] == least[k]);
        }
    }
}

/// What stops the machine stops it in other registers.
#[verifier::spinoff_prover]
proof fn stuck_led(leaders: Leaders, instr: InstrView, held: Held, other: Held)
    requires
        may_stop(instr, held),
        led_instr(leaders, instr).operands() == led_values(leaders, instr.operands()),
        led_instr(leaders, instr).written() is Some == instr.written() is Some,
        forall|i: int|
            0 <= i < instr.operands().len() ==> held_by(
                #[trigger] led_values(leaders, instr.operands())[i],
                other,
            ) == held_by(instr.operands()[i], held),
    ensures
        may_stop(led_instr(leaders, instr), other),
        given(led_instr(leaders, instr), other) == given(instr, held),
        !copies_itself(led_instr(leaders, instr)),
{
    let now = led_instr(leaders, instr);
    let operands = instr.operands();
    let led = led_values(leaders, operands);
    assert forall|i: int| 0 <= i < led.len() implies held_by(#[trigger] led[i], other) is Some by {
        assert(held_by(operands[i], held) is Some);
    }
    if let InstrView::Copy { src, .. } = instr {
        assert(operands[0] == src);
        assert(held_by(operands[0], held) is Some);
        assert(may_write(instr, held, held_by(src, held)->0));
    }
    assert(words(led, other) =~= words(operands, held)) by {
        assert forall|i: int| 0 <= i < operands.len() implies words(led, other)[i] == words(
            operands,
            held,
        )[i] by {
            assert(held_by(led[i], other) == held_by(operands[i], held));
        }
    }
    led_does_the_same(leaders, instr, words(operands, held));
    assert forall|word: i64| !may_write(instr, held, word) implies !#[trigger] may_write(
        now,
        other,
        word,
    ) by {
        match instr {
            InstrView::Bin { .. } => {
                assert(held_by(led[0], other) == held_by(operands[0], held));
                assert(held_by(led[1], other) == held_by(operands[1], held));
            },
            InstrView::Cmp { .. } => {
                assert(held_by(led[0], other) == held_by(operands[0], held));
                assert(held_by(led[1], other) == held_by(operands[1], held));
            },
            InstrView::Elem { .. } => {
                assert(held_by(led[1], other) == held_by(operands[1], held));
                assert(held_by(led[2], other) == held_by(operands[2], held));
            },
            _ => {},
        }
    }
}

proof fn stop(function: FunctionView, after: FunctionView, run: Seq<Visit>, last: Visit) -> (
    other: (Seq<Visit>, Visit))
    requires
        well_formed(function),
        hands_nothing(function.blocks),
        after.names.len() == function.names.len(),
        after.blocks == function.blocks.map_values(
            |block: BlockView| led_block(leaders_of(function), block),
        ),
        halts(function, run, last),
    ensures
        stops_as(function, (run, last), after, other),
        done_before(after, other.0, other.1) == done_before(function, run, last),
{
    let blocks = function.blocks;
    let leaders = leaders_of(function);
    let b = last.block;
    let instrs = blocks[b].instrs;
    let k = last.states.len() - 1;
    leaders_within(function);
    let found: (Seq<Visit>, Held) = if run.len() == 0 {
        assert(run_deeds(after, run) =~= run_deeds(function, run));
        (run, nothing_held(after.names.len()))
    } else {
        let n = run.len() - 1;
        assert(visits(function, run[n]));
        let other = follow(function, after, run);
        let entering = other.last().states.last();
        shared_edge(function, run[n].block, run[n].states.last(), b, last.states[0], entering);
        assert(goes(after.blocks, run[n].block, entering, b, entering)) by {
            assert(after.blocks[b].params == blocks[b].params);
            assert(blocks[b].params.len() == 0);
        }
        (other, entering)
    };
    let (other, entering) = found;
    let states = shared_steps(function, last, entering, k);
    let one = Visit { block: b, states };
    let left = led_instrs(leaders, instrs, k);
    let all = led_instrs(leaders, instrs, instrs.len() as int);
    let at = left.len() as int;
    assert(after.blocks[b].instrs == all);
    // What it reads where it stops is worth the same.
    assert(block_within(blocks[b], function.names.len(), blocks.len()));
    assert(instr_within(instrs[k], function.names.len()));
    read_the_same(function, b, k, instrs[k].operands(), last.states[k], states[at]);
    led_is_the_same(leaders, instrs[k]);
    stuck_led(leaders, instrs[k], last.states[k], states[at]);
    led_further(leaders, instrs, k, instrs.len() as int);
    led_further(leaders, instrs, k + 1, instrs.len() as int);
    assert(led_instrs(leaders, instrs, k + 1)[at] == led_instr(leaders, instrs[k]));
    assert(all[at] == led_instr(leaders, instrs[k]));
    assert forall|j: int| 0 <= j < at implies #[trigger] steps(all[j], states[j], states[j + 1]) by {
        assert(all[j] == left[j]);
        assert(steps(left[j], states[j], states[j + 1]));
    }
    assert forall|j: int| 0 <= j < at implies is_deed(#[trigger] all[j]) == is_deed(left[j]) && (
    is_deed(left[j]) ==> deed(all[j], states[j], states[j + 1]) == deed(
        left[j],
        states[j],
        states[j + 1],
    )) by {
        assert(all[j] == left[j]);
    }
    same_deeds(left, states, all, states, at);
    asks_the_same(done_before(function, run, last));
    (other, one)
}

/// **Sharing registers changes nothing about where a function stops.** Where a
/// function whose blocks hand each other nothing stops at an operation that has
/// no answer, what coalescing makes of it stops at it too, having done the same.
pub proof fn coalescing_keeps_where_it_stops(
    function: FunctionView,
    run: Seq<Visit>,
    last: Visit,
) -> (other: (Seq<Visit>, Visit))
    requires
        well_formed(function),
        hands_nothing(function.blocks),
        halts(function, run, last),
    ensures
        stops_as(function, (run, last), coalesced(function), other),
        done_before(coalesced(function), other.0, other.1) == done_before(function, run, last),
{
    if leaders_of(function) == apart(function.names.len()) {
        asks_the_same(done_before(function, run, last));
        (run, last)
    } else {
        stop(function, coalesced(function), run, last)
    }
}

} // verus!
