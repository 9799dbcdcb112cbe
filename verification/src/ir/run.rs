//! Running a function: what its registers hold from step to step.
//!
//! Nothing is said of what a load, a call or a parameter puts into a register, so
//! what holds of every run holds whatever those answer.

use vstd::prelude::*;

use crate::ir::block::{BlockView, TargetView, TermView};
use crate::ir::fold::{folded_bin, folded_comparison};
use crate::ir::func::FunctionView;
use crate::ir::instr::InstrView;
use crate::ir::value::{VReg, Value};

verus! {

/// What every register holds, where anything has been written to it.
pub type Held = Seq<Option<i64>>;

/// What an operand is worth.
pub open spec fn held_by(value: Value, held: Held) -> Option<i64> {
    match value {
        Value::Const(c) => Some(c),
        Value::Reg(reg) => held[reg.0 as int],
    }
}

/// Whether everything read has been written. A program cannot read a register
/// on a path that never wrote one.
pub open spec fn all_written(values: Seq<Value>, held: Held) -> bool {
    forall|i: int| 0 <= i < values.len() ==> held_by(#[trigger] values[i], held) is Some
}

/// Whether an index is looked at when the program runs. One that was written down
/// with a length that was written down has been looked at already.
pub open spec fn is_checked(index: Value, len: Value) -> bool {
    !(index is Const && len is Const)
}

/// Whether an instruction may put a word into its result. An operation whose
/// answer does not exist puts nothing there, and neither does an index that is out
/// of range: the machine stops.
pub open spec fn may_write(instr: InstrView, held: Held, word: i64) -> bool {
    match instr {
        InstrView::Const { val, .. } => word == val,
        InstrView::Copy { src, .. } => held_by(src, held) == Some(word),
        InstrView::Bin { num, op, lhs, rhs, .. } => {
            let a = held_by(lhs, held)->0;
            let b = held_by(rhs, held)->0;
            num is Float && op is Rem || folded_bin(
                num,
                op,
                Value::Const(a),
                Value::Const(b),
            ) == Some(word)
        },
        InstrView::Cmp { num, op, lhs, rhs, .. } => {
            let a = held_by(lhs, held)->0;
            let b = held_by(rhs, held)->0;
            folded_comparison(num, op, Value::Const(a), Value::Const(b)) == Some(word)
        },
        InstrView::Elem { index, len, .. } => is_checked(index, len) ==> 0 <= held_by(
            index,
            held,
        )->0 < held_by(len, held)->0,
        _ => true,
    }
}

/// Whether an instruction may take a program from one state to the next.
pub open spec fn steps(instr: InstrView, before: Held, after: Held) -> bool {
    &&& all_written(instr.operands(), before)
    &&& match instr.written() {
        Some(dst) => {
            &&& after == before.update(dst.0 as int, after[dst.0 as int])
            &&& after[dst.0 as int] is Some
            &&& may_write(instr, before, after[dst.0 as int]->0)
        },
        None => after == before,
    }
}

/// Whether a run of states is what the first `n` instructions of a block may
/// go through.
pub open spec fn walks(instrs: Seq<InstrView>, states: Seq<Held>, n: int) -> bool {
    &&& states.len() == n + 1
    &&& forall|k: int| 0 <= k < n ==> #[trigger] steps(instrs[k], states[k], states[k + 1])
}

/// A block as a program goes through it: which one, and the states it goes
/// through in it.
#[verifier::ext_equal]
pub struct Visit {
    pub block: int,
    pub states: Seq<Held>,
}

/// Whether a visit goes through the whole of a block.
pub open spec fn visits(function: FunctionView, visit: Visit) -> bool {
    &&& 0 <= visit.block < function.blocks.len()
    &&& visit.states.len() > 0
    &&& visit.states[0].len() == function.names.len()
    &&& walks(
        function.blocks[visit.block].instrs,
        visit.states,
        function.blocks[visit.block].instrs.len() as int,
    )
}

/// Where control goes.
pub open spec fn goes_to(term: TermView, held: Held) -> Option<TargetView> {
    match term {
        TermView::Jump(target) => Some(target),
        TermView::Branch { cond, then_blk, else_blk } => match held_by(cond, held) {
            Some(c) => if c != 0 {
                Some(then_blk)
            } else {
                Some(else_blk)
            },
            None => None,
        },
        TermView::Return(_) => None,
    }
}

/// What is answered.
pub open spec fn answers(term: TermView, held: Held) -> Option<i64> {
    match term {
        TermView::Return(Some(value)) => held_by(value, held),
        _ => None,
    }
}

/// What registers hold once the first `n` of a block's parameters have taken what
/// an edge hands them. All of them take at once.
pub open spec fn handed_over(params: Seq<VReg>, args: Seq<Value>, held: Held, n: int) -> Held
    decreases n,
{
    if n <= 0 {
        held
    } else {
        handed_over(params, args, held, n - 1).update(
            params[n - 1].0 as int,
            held_by(args[n - 1], held),
        )
    }
}

/// Whether control goes from the end of one block to the top of another, the
/// parameters of the second taking what the edge hands them.
pub open spec fn goes(
    blocks: Seq<BlockView>,
    from: int,
    leaving: Held,
    to: int,
    entering: Held,
) -> bool {
    match goes_to(blocks[from].term, leaving) {
        Some(target) => {
            &&& target.block.0 == to
            &&& all_written(target.args, leaving)
            &&& entering == handed_over(
                blocks[to].params,
                target.args,
                leaving,
                blocks[to].params.len() as int,
            )
        },
        None => false,
    }
}

/// Nothing written yet.
pub open spec fn nothing_held(count: nat) -> Held {
    Seq::new(count, |r: int| None::<i64>)
}

/// Whether a run of visits is how a function goes as far as it has gone: from the
/// entry, where nothing is written, each block to where its ending says.
pub open spec fn is_execution(function: FunctionView, run: Seq<Visit>) -> bool {
    &&& run.len() > 0
    &&& run[0].block == 0
    &&& run[0].states[0] == nothing_held(function.names.len())
    &&& forall|i: int| 0 <= i < run.len() ==> visits(function, #[trigger] run[i])
    &&& forall|i: int|
        #![trigger run[i]]
        0 < i < run.len() ==> goes(
            function.blocks,
            run[i - 1].block,
            run[i - 1].states.last(),
            run[i].block,
            run[i].states[0],
        )
}

} // verus!
