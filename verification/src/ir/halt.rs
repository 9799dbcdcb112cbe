//! Where a function stops, and what it has done by then.
//!
//! The machine stops at an operation whose answer does not exist and at an index
//! that is out of range, and may stop at a conversion and in a routine. That is as
//! much a part of what a program does as what it prints.

use vstd::prelude::*;

use super::deeds::{asks_no_more, asks_through, deeds, given, run_deeds, words, Deed};
use super::func::{block_within, well_formed, FunctionView};
use super::instr::{instr_within, InstrView};
use super::run::{
    all_written, goes, held_by, is_execution, may_write, nothing_held, steps, Held, Visit,
};

verus! {

/// Whether the machine may stop at an instruction: everything it reads is there,
/// and it has no answer, or whether it has one is not for registers to say.
pub open spec fn may_stop(instr: InstrView, held: Held) -> bool {
    &&& all_written(instr.operands(), held)
    &&& {
        ||| instr.written() is Some && forall|word: i64| !#[trigger] may_write(instr, held, word)
        ||| instr is RtCall
        ||| instr matches InstrView::Cast { to, .. } && to is Int
    }
}

/// Whether a visit goes through the first `n` instructions of its block.
pub open spec fn goes_through(function: FunctionView, visit: Visit, n: int) -> bool {
    let instrs = function.blocks[visit.block].instrs;
    &&& 0 <= visit.block < function.blocks.len()
    &&& 0 <= n <= instrs.len()
    &&& n < visit.states.len()
    &&& visit.states[0].len() == function.names.len()
    &&& forall|k: int|
        0 <= k < n ==> #[trigger] steps(instrs[k], visit.states[k], visit.states[k + 1])
}

/// No step makes a register or loses one.
pub proof fn lengths_kept(function: FunctionView, visit: Visit, n: int)
    requires
        well_formed(function),
        goes_through(function, visit, n),
    ensures
        visit.states[n].len() == function.names.len(),
    decreases n,
{
    if n > 0 {
        lengths_kept(function, visit, n - 1);
        let block = function.blocks[visit.block];
        assert(steps(block.instrs[n - 1], visit.states[n - 1], visit.states[n - 1 + 1]));
        assert(block_within(block, function.names.len(), function.blocks.len()));
        assert(instr_within(block.instrs[n - 1], function.names.len()));
    }
}

/// Whether a run that may not have left the entry yet arrives at a block.
pub open spec fn arrives(function: FunctionView, run: Seq<Visit>, at: int, held: Held) -> bool {
    if run.len() == 0 {
        at == 0 && held == nothing_held(function.names.len())
    } else {
        goes(function.blocks, run.last().block, run.last().states.last(), at, held)
    }
}

/// Whether a function comes to where it may stop: having gone through a run of
/// blocks, somewhere in the block it comes to.
pub open spec fn halts(function: FunctionView, run: Seq<Visit>, last: Visit) -> bool {
    let instrs = function.blocks[last.block].instrs;
    let k = last.states.len() - 1;
    &&& run.len() > 0 ==> is_execution(function, run)
    &&& arrives(function, run, last.block, last.states[0])
    &&& goes_through(function, last, k)
    &&& k < instrs.len()
    &&& may_stop(instrs[k], last.states[k])
}

/// What a function has done by the time it stops.
pub open spec fn done_before(function: FunctionView, run: Seq<Visit>, last: Visit) -> Seq<Deed> {
    run_deeds(function, run) + deeds(
        function.blocks[last.block].instrs,
        last.states,
        last.states.len() - 1,
    )
}

/// What a function stops at, with the words it is given.
pub open spec fn stopped_at(function: FunctionView, last: Visit) -> InstrView {
    let k = last.states.len() - 1;
    given(function.blocks[last.block].instrs[k], last.states[k])
}

/// Whether one function stops where another does, at the same operation given the
/// same words, and having done the same but for questions it may leave out.
pub open spec fn stops_as(
    function: FunctionView,
    halt: (Seq<Visit>, Visit),
    after: FunctionView,
    other: (Seq<Visit>, Visit),
) -> bool {
    &&& halts(after, other.0, other.1)
    &&& stopped_at(after, other.1) == stopped_at(function, halt.1)
    &&& asks_no_more(
        done_before(function, halt.0, halt.1),
        done_before(after, other.0, other.1),
    )
}

pub proof fn stops_as_through(
    a: FunctionView,
    halt: (Seq<Visit>, Visit),
    b: FunctionView,
    between: (Seq<Visit>, Visit),
    c: FunctionView,
    other: (Seq<Visit>, Visit),
)
    requires
        stops_as(a, halt, b, between),
        stops_as(b, between, c, other),
    ensures
        stops_as(a, halt, c, other),
{
    asks_through(
        done_before(a, halt.0, halt.1),
        done_before(b, between.0, between.1),
        done_before(c, other.0, other.1),
    );
}

/// What stops the machine stops it where what it reads is worth the same.
#[verifier::spinoff_prover]
pub proof fn stuck_again(instr: InstrView, held: Held, other: Held)
    requires
        may_stop(instr, held),
        forall|i: int|
            0 <= i < instr.operands().len() ==> held_by(#[trigger] instr.operands()[i], other)
                == held_by(instr.operands()[i], held),
    ensures
        may_stop(instr, other),
        given(instr, other) == given(instr, held),
{
    let operands = instr.operands();
    assert(words(operands, other) =~= words(operands, held));
    if instr is RtCall || instr is Cast {
        assert(may_write(instr, held, 0));
    }
    assert forall|i: int| 0 <= i < operands.len() implies held_by(
        #[trigger] operands[i],
        other,
    ) is Some by {
        assert(held_by(operands[i], held) is Some);
    }
    assert forall|word: i64| !may_write(instr, held, word) implies !#[trigger] may_write(
        instr,
        other,
        word,
    ) by {
        match instr {
            InstrView::Copy { .. } => {
                assert(held_by(operands[0], other) == held_by(operands[0], held));
            },
            InstrView::Bin { .. } => {
                assert(held_by(operands[0], other) == held_by(operands[0], held));
                assert(held_by(operands[1], other) == held_by(operands[1], held));
            },
            InstrView::Cmp { .. } => {
                assert(held_by(operands[0], other) == held_by(operands[0], held));
                assert(held_by(operands[1], other) == held_by(operands[1], held));
            },
            InstrView::Elem { .. } => {
                assert(held_by(operands[1], other) == held_by(operands[1], held));
                assert(held_by(operands[2], other) == held_by(operands[2], held));
            },
            _ => {},
        }
    }
}

} // verus!
