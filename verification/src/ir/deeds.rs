//! What a run of a function does, seen from outside it.
//!
//! It is written down as it goes: every store, every call, everything printed, and
//! every question — a load, an address, a length, an argument — whose answer is
//! not worked out from its operands alone. All of it in order, with the words it
//! is given and the word it answers. What registers are called, and how many there
//! are, is not part of it, and neither is the way through the function — which is
//! what lets a function be compared with what a stage of the compiler makes of it.
//!
//! A question that nobody waits for the answer of may be left out. Nothing else
//! may.

use vstd::prelude::*;

use crate::ir::block::BlockView;
use crate::ir::func::FunctionView;
use crate::ir::instr::InstrView;
use crate::ir::run::{all_written, answers, held_by, is_execution, Held, Visit};
use crate::ir::value::{VReg, Value};

verus! {

/// Something a run does that is not only about registers: the instruction with
/// the words it is given, whichever register it writes, and the word it answers.
#[verifier::ext_equal]
pub struct Deed {
    pub instr: InstrView,
    pub answer: Option<i64>,
}

/// Whether an instruction does more than work out a word from its operands.
pub open spec fn is_deed(instr: InstrView) -> bool {
    match instr {
        InstrView::Const { .. } => false,
        InstrView::Copy { .. } => false,
        InstrView::Bin { num, op, .. } => num is Float && op is Rem,
        InstrView::Cmp { .. } => false,
        _ => true,
    }
}

/// Whether everything that writes a register asks for what it writes.
pub open spec fn asked(blocks: Seq<BlockView>, reg: VReg) -> bool {
    forall|b: int, k: int|
        #![trigger blocks[b].instrs[k]]
        0 <= b < blocks.len() && 0 <= k < blocks[b].instrs.len() && blocks[b].instrs[k].written()
            == Some(reg) ==> is_deed(blocks[b].instrs[k])
}

/// Whether every length an index is looked at against is written down or asked
/// for.
pub open spec fn lengths_are_asked(blocks: Seq<BlockView>) -> bool {
    forall|b: int, k: int|
        #![trigger blocks[b].instrs[k]]
        0 <= b < blocks.len() && 0 <= k < blocks[b].instrs.len() ==> length_is_asked(
            blocks,
            blocks[b].instrs[k],
        )
}

/// Whether the length an instruction looks at its index against is written down or
/// asked for.
pub open spec fn length_is_asked(blocks: Seq<BlockView>, instr: InstrView) -> bool {
    match instr {
        InstrView::Elem { len: Value::Reg(reg), .. } => asked(blocks, reg),
        _ => true,
    }
}

/// Whether a deed is a question and no more: it answers, and changes nothing.
pub open spec fn is_question(deed: Deed) -> bool {
    deed.instr.written() is Some && !deed.instr.calls()
}

/// Whether one list of deeds is another, with some questions left out.
pub open spec fn asks_no_more(done: Seq<Deed>, now: Seq<Deed>) -> bool
    decreases done.len(),
{
    if done.len() == 0 {
        now.len() == 0
    } else {
        ||| now.len() > 0 && now.last() == done.last() && asks_no_more(
            done.drop_last(),
            now.drop_last(),
        )
        ||| is_question(done.last()) && asks_no_more(done.drop_last(), now)
    }
}

pub proof fn asks_the_same(done: Seq<Deed>)
    ensures
        asks_no_more(done, done),
    decreases done.len(),
{
    if done.len() > 0 {
        asks_the_same(done.drop_last());
    }
}

pub proof fn asks_through(a: Seq<Deed>, b: Seq<Deed>, c: Seq<Deed>)
    requires
        asks_no_more(a, b),
        asks_no_more(b, c),
    ensures
        asks_no_more(a, c),
    decreases a.len(),
{
    if a.len() > 0 {
        let rest = a.drop_last();
        if b.len() > 0 && b.last() == a.last() && asks_no_more(rest, b.drop_last()) {
            if c.len() > 0 && c.last() == b.last() && asks_no_more(b.drop_last(), c.drop_last()) {
                asks_through(rest, b.drop_last(), c.drop_last());
            } else {
                asks_through(rest, b.drop_last(), c);
            }
        } else {
            asks_through(rest, b, c);
        }
    }
}

/// One list behind another.
pub proof fn asks_both(a: Seq<Deed>, b: Seq<Deed>, c: Seq<Deed>, d: Seq<Deed>)
    requires
        asks_no_more(a, b),
        asks_no_more(c, d),
    ensures
        asks_no_more(a + c, b + d),
    decreases c.len(),
{
    if c.len() == 0 {
        assert(a + c =~= a && b + d =~= b);
    } else {
        assert((a + c).drop_last() =~= a + c.drop_last());
        if d.len() > 0 && d.last() == c.last() && asks_no_more(c.drop_last(), d.drop_last()) {
            asks_both(a, b, c.drop_last(), d.drop_last());
            assert((b + d).drop_last() =~= b + d.drop_last());
        } else {
            asks_both(a, b, c.drop_last(), d);
        }
    }
}

/// A deed done by both, or a question only the first asks.
pub proof fn asks_one_more(done: Seq<Deed>, now: Seq<Deed>, one: Deed)
    requires
        asks_no_more(done, now),
    ensures
        asks_no_more(done.push(one), now.push(one)),
        is_question(one) ==> asks_no_more(done.push(one), now),
{
    assert(done.push(one).drop_last() =~= done);
    assert(now.push(one).drop_last() =~= now);
}

/// The words a run of operands is worth.
pub open spec fn words(values: Seq<Value>, held: Held) -> Seq<Value> {
    values.map_values(|value: Value| Value::Const(held_by(value, held)->0))
}

/// An instruction, whichever register it writes.
pub open spec fn unnamed(instr: InstrView) -> InstrView {
    match instr.written() {
        Some(_) => instr.with_def(VReg(0)),
        None => instr,
    }
}

/// An instruction with the words it is given, whichever register it writes.
pub open spec fn given(instr: InstrView, held: Held) -> InstrView {
    unnamed(instr.with_operands(words(instr.operands(), held)))
}

/// What an instruction does, from one moment to the next.
pub open spec fn deed(instr: InstrView, before: Held, after: Held) -> Deed {
    Deed {
        instr: given(instr, before),
        answer: match instr.written() {
            Some(dst) => after[dst.0 as int],
            None => None,
        },
    }
}

/// What the first `n` instructions of a visit do.
pub open spec fn deeds(instrs: Seq<InstrView>, states: Seq<Held>, n: int) -> Seq<Deed>
    decreases n,
{
    if n <= 0 {
        seq![]
    } else {
        let rest = deeds(instrs, states, n - 1);
        if is_deed(instrs[n - 1]) {
            rest.push(deed(instrs[n - 1], states[n - 1], states[n]))
        } else {
            rest
        }
    }
}

/// What a visit does.
pub open spec fn visit_deeds(function: FunctionView, visit: Visit) -> Seq<Deed> {
    let instrs = function.blocks[visit.block].instrs;
    deeds(instrs, visit.states, instrs.len() as int)
}

/// What a run does.
pub open spec fn run_deeds(function: FunctionView, run: Seq<Visit>) -> Seq<Deed>
    decreases run.len(),
{
    if run.len() == 0 {
        seq![]
    } else {
        run_deeds(function, run.drop_last()) + visit_deeds(function, run.last())
    }
}

/// Whether a run has come to a return, and what it answers.
pub open spec fn run_answer(function: FunctionView, run: Seq<Visit>) -> Option<Option<i64>> {
    let last = run.last();
    let term = function.blocks[last.block].term;
    if term is Return && all_written(term.head(), last.states.last()) {
        Some(answers(term, last.states.last()))
    } else {
        None
    }
}

/// Whether a run of one function does what a run of another does, but for
/// questions it may leave out.
pub open spec fn does_as(
    function: FunctionView,
    run: Seq<Visit>,
    after: FunctionView,
    other: Seq<Visit>,
) -> bool {
    &&& is_execution(after, other)
    &&& asks_no_more(run_deeds(function, run), run_deeds(after, other))
    &&& run_answer(function, run) is Some ==> run_answer(after, other) == run_answer(function, run)
}

/// Instructions that do the same one by one do the same together.
pub proof fn same_deeds(
    a: Seq<InstrView>,
    states: Seq<Held>,
    b: Seq<InstrView>,
    others: Seq<Held>,
    n: int,
)
    requires
        0 <= n <= a.len(),
        n <= b.len(),
        forall|k: int|
            0 <= k < n ==> is_deed(#[trigger] b[k]) == is_deed(a[k]) && (is_deed(a[k]) ==> deed(
                b[k],
                others[k],
                others[k + 1],
            ) == deed(a[k], states[k], states[k + 1])),
    ensures
        deeds(a, states, n) == deeds(b, others, n),
    decreases n,
{
    if n > 0 {
        same_deeds(a, states, b, others, n - 1);
        assert(is_deed(b[n - 1]) == is_deed(a[n - 1]));
    }
}

/// Visits that do the same one by one do the same together.
pub proof fn same_run_deeds(
    function: FunctionView,
    run: Seq<Visit>,
    after: FunctionView,
    other: Seq<Visit>,
)
    requires
        run.len() == other.len(),
        forall|i: int|
            0 <= i < run.len() ==> visit_deeds(after, other[i]) == visit_deeds(
                function,
                #[trigger] run[i],
            ),
    ensures
        run_deeds(after, other) == run_deeds(function, run),
    decreases run.len(),
{
    if run.len() > 0 {
        let a = run.drop_last();
        let b = other.drop_last();
        assert forall|i: int| 0 <= i < a.len() implies visit_deeds(after, b[i]) == visit_deeds(
            function,
            #[trigger] a[i],
        ) by {
            assert(a[i] == run[i] && b[i] == other[i]);
        }
        same_run_deeds(function, a, after, b);
        assert(visit_deeds(after, other[run.len() - 1]) == visit_deeds(
            function,
            run[run.len() - 1],
        ));
    }
}

/// Doing as what does as another does is doing as it.
pub proof fn does_as_through(
    a: FunctionView,
    run: Seq<Visit>,
    b: FunctionView,
    between: Seq<Visit>,
    c: FunctionView,
    other: Seq<Visit>,
)
    requires
        does_as(a, run, b, between),
        does_as(b, between, c, other),
    ensures
        does_as(a, run, c, other),
{
    asks_through(run_deeds(a, run), run_deeds(b, between), run_deeds(c, other));
}

} // verus!
